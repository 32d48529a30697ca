//! What the paths down the stacks are, and what is there once nothing is left to
//! reduce.

use vstd::prelude::*;

use crate::framework::parse::data::gss::{edge_ids_from, edges_from, lemma_edge_ids, GssEdge, GssNode, GssNodeId};
use crate::framework::parse::data::product::{ProductDataView, ProductId, ProductView};
use crate::framework::parse::grammar::{Grammar, Symbol};
use crate::framework::parse::parsing::reduce::{
    accept_done, action_done, after_accept, after_goto, node_done, path_done, rhs_len, stable, Gap,
};
use crate::framework::parse::parsing::reductions::KeyView;
use crate::framework::parse::parsing::stack::{
    error_paths, extended, paths_from, paths_over, PathView, StackView,
};
use crate::framework::parse::tables::{Action, Parser};

verus! {

/// Edges that lead down from a node, each from where the one before it ends.
pub open spec fn is_chain(edges: Seq<GssEdge>, node: GssNodeId, chain: Seq<int>) -> bool {
    forall|i: int|
        0 <= i < chain.len() ==> 0 <= #[trigger] chain[i] < edges.len() && edges[chain[i]].from
            == chain_node(edges, node, chain, i)
}

/// The node that is reached over the first edges of a chain.
pub open spec fn chain_node(
    edges: Seq<GssEdge>,
    node: GssNodeId,
    chain: Seq<int>,
    steps: int,
) -> GssNodeId {
    if steps <= 0 {
        node
    } else {
        edges[chain[steps - 1]].to
    }
}

/// The products on a chain, from the lowest edge up.
pub open spec fn chain_products(edges: Seq<GssEdge>, chain: Seq<int>) -> Seq<ProductId> {
    Seq::new(chain.len(), |i: int| edges[chain[chain.len() - 1 - i]].product)
}

/// The symbol for errors comes first in a production.
pub open spec fn begins_with_errors(g: Grammar, production: usize) -> bool {
    &&& production < g.productions@.len()
    &&& g.productions@[production as int].rhs_start < g.rhs_symbols@.len()
    &&& g.rhs_symbols@[g.productions@[production as int].rhs_start as int] == Symbol::T(
        g.error_terminal,
    )
}

/// A product is an error.
pub open spec fn failed(products: Seq<ProductView>, product: ProductId) -> bool {
    product < products.len() && (products[product as int].data matches ProductDataView::Error {
        ..
    })
}

/// A chain without its first edge starts where that edge ends.
proof fn lemma_chain_tail(edges: Seq<GssEdge>, node: GssNodeId, chain: Seq<int>)
    requires
        is_chain(edges, node, chain),
        chain.len() > 0,
    ensures
        0 <= chain[0] < edges.len(),
        edges[chain[0]].from == node,
        is_chain(edges, edges[chain[0]].to, chain.drop_first()),
        chain_node(edges, node, chain, chain.len() as int) == chain_node(
            edges,
            edges[chain[0]].to,
            chain.drop_first(),
            chain.len() - 1,
        ),
        chain_products(edges, chain) == chain_products(edges, chain.drop_first()).push(
            edges[chain[0]].product,
        ),
{
    let rest = chain.drop_first();
    let first = chain[0];
    assert forall|i: int| 0 <= i < rest.len() implies 0 <= #[trigger] rest[i] < edges.len()
        && edges[rest[i]].from == chain_node(edges, edges[first].to, rest, i) by {
        assert(rest[i] == chain[i + 1]);
        if i > 0 {
            assert(rest[i - 1] == chain[i]);
        }
    }
    assert(chain_products(edges, chain) =~= chain_products(edges, rest).push(
        edges[first].product,
    ));
}

/// An edge before a chain from where it ends makes a longer chain.
proof fn lemma_chain_cons(edges: Seq<GssEdge>, node: GssNodeId, first: int, rest: Seq<int>)
    requires
        0 <= first < edges.len(),
        edges[first].from == node,
        is_chain(edges, edges[first].to, rest),
    ensures
        is_chain(edges, node, seq![first] + rest),
        chain_node(edges, node, seq![first] + rest, rest.len() as int + 1) == chain_node(
            edges,
            edges[first].to,
            rest,
            rest.len() as int,
        ),
        chain_products(edges, seq![first] + rest) == chain_products(edges, rest).push(
            edges[first].product,
        ),
{
    let chain = seq![first] + rest;
    assert forall|i: int| 0 <= i < chain.len() implies 0 <= #[trigger] chain[i] < edges.len()
        && edges[chain[i]].from == chain_node(edges, node, chain, i) by {
        if i > 0 {
            assert(chain[i] == rest[i - 1]);
            if i > 1 {
                assert(chain[i - 1] == rest[i - 2]);
            }
        }
    }
    assert(chain.drop_first() =~= rest);
    lemma_chain_tail(edges, node, chain);
}

/// What is listed below an edge is listed from the node that it leaves.
proof fn lemma_listed_over(
    v: StackView,
    g: Grammar,
    column: int,
    node: GssNodeId,
    production: usize,
    depth: nat,
    i: int,
    lower: PathView,
)
    requires
        v.gss.edges.len() <= usize::MAX,
        0 <= i < v.gss.edges.len(),
        v.gss.edges[i].from == node,
        paths_from(v, g, column, v.gss.edges[i].to, production, depth).contains(lower),
    ensures
        paths_from(v, g, column, node, production, depth + 1).contains(
            PathView {
                predecessor: lower.predecessor,
                products: lower.products.push(v.gss.edges[i].product),
            },
        ),
{
    let ids = edge_ids_from(v.gss.edges, node);
    let edges = edges_from(v.gss.edges, node);
    lemma_edge_ids(v.gss.edges, node);
    assert(ids.contains(i as usize));
    let k = ids.index_of(i as usize);
    assert(edges[k] == v.gss.edges[i]);
    lemma_listed_within(v, g, column, production, depth + 1, edges, edges.len(), k, lower);
}

proof fn lemma_listed_within(
    v: StackView,
    g: Grammar,
    column: int,
    production: usize,
    depth: nat,
    edges: Seq<GssEdge>,
    until: nat,
    k: int,
    lower: PathView,
)
    requires
        depth > 0,
        0 <= k < until <= edges.len(),
        paths_from(v, g, column, edges[k].to, production, (depth - 1) as nat).contains(lower),
    ensures
        paths_over(v, g, column, production, depth, edges, until).contains(
            PathView {
                predecessor: lower.predecessor,
                products: lower.products.push(edges[k].product),
            },
        ),
    decreases until,
{
    let all = paths_over(v, g, column, production, depth, edges, until);
    let before = paths_over(v, g, column, production, depth, edges, (until - 1) as nat);
    let path = PathView {
        predecessor: lower.predecessor,
        products: lower.products.push(edges[k].product),
    };
    if k < until - 1 {
        lemma_listed_within(v, g, column, production, depth, edges, (until - 1) as nat, k, lower);
        let at = before.index_of(path);
        assert(all[at] == path);
    } else {
        let below = paths_from(v, g, column, edges[k].to, production, (depth - 1) as nat);
        let at = below.index_of(lower);
        assert(extended(below, edges[k].product)[at] == path);
        assert(all[before.len() + at] == path);
    }
}

/// Every chain down from a node is found, whatever its length and for every
/// production: among the paths of that length is the one that ends where the
/// chain ends and holds the products on it, the lowest first.
pub proof fn lemma_every_chain_is_found(
    v: StackView,
    g: Grammar,
    column: int,
    node: GssNodeId,
    production: usize,
    chain: Seq<int>,
)
    requires
        v.gss.edges.len() <= usize::MAX,
        is_chain(v.gss.edges, node, chain),
    ensures
        paths_from(v, g, column, node, production, chain.len()).contains(
            PathView {
                predecessor: chain_node(v.gss.edges, node, chain, chain.len() as int),
                products: chain_products(v.gss.edges, chain),
            },
        ),
    decreases chain.len(),
{
    let edges = v.gss.edges;
    let path = PathView {
        predecessor: chain_node(edges, node, chain, chain.len() as int),
        products: chain_products(edges, chain),
    };
    if chain.len() == 0 {
        assert(path.products =~= Seq::<ProductId>::empty());
        assert(paths_from(v, g, column, node, production, 0)[0] == path);
    } else {
        lemma_chain_tail(edges, node, chain);
        let rest = chain.drop_first();
        let below = edges[chain[0]].to;
        lemma_every_chain_is_found(v, g, column, below, production, rest);
        let lower = PathView {
            predecessor: chain_node(edges, below, rest, rest.len() as int),
            products: chain_products(edges, rest),
        };
        lemma_listed_over(v, g, column, node, production, rest.len(), chain[0], lower);
    }
}

/// Where a chain ends at a node that no edge leaves, each error of the column is
/// found below it, for a production that begins with the symbol for errors.
pub proof fn lemma_every_error_is_found(
    v: StackView,
    g: Grammar,
    column: int,
    node: GssNodeId,
    production: usize,
    chain: Seq<int>,
    product: ProductId,
)
    requires
        v.gss.edges.len() <= usize::MAX,
        is_chain(v.gss.edges, node, chain),
        forall|i: int|
            0 <= i < v.gss.edges.len() ==> (#[trigger] v.gss.edges[i]).from != chain_node(
                v.gss.edges,
                node,
                chain,
                chain.len() as int,
            ),
        begins_with_errors(g, production),
        v.session.columns[column].products.contains(product),
        failed(v.products, product),
    ensures
        paths_from(v, g, column, node, production, chain.len() + 1).contains(
            PathView {
                predecessor: chain_node(v.gss.edges, node, chain, chain.len() as int),
                products: seq![product] + chain_products(v.gss.edges, chain),
            },
        ),
    decreases chain.len(),
{
    let edges = v.gss.edges;
    let path = PathView {
        predecessor: chain_node(edges, node, chain, chain.len() as int),
        products: seq![product] + chain_products(edges, chain),
    };
    if chain.len() == 0 {
        lemma_edge_ids(edges, node);
        let ids = edge_ids_from(edges, node);
        if ids.len() > 0 {
            assert(edges[ids[0] as int].from == node);
        }
        let list = v.session.columns[column].products;
        lemma_error_listed(v.products, list, node, product);
        assert(path.products =~= seq![product]);
        assert(paths_from(v, g, column, node, production, 1) == error_paths(
            v.products,
            list,
            node,
        ));
    } else {
        lemma_chain_tail(edges, node, chain);
        let rest = chain.drop_first();
        let below = edges[chain[0]].to;
        lemma_every_error_is_found(v, g, column, below, production, rest, product);
        let lower = PathView {
            predecessor: chain_node(edges, below, rest, rest.len() as int),
            products: seq![product] + chain_products(edges, rest),
        };
        lemma_listed_over(v, g, column, node, production, rest.len() + 1, chain[0], lower);
        assert(lower.products.push(edges[chain[0]].product) =~= path.products);
    }
}

proof fn lemma_error_listed(
    products: Seq<ProductView>,
    list: Seq<ProductId>,
    node: GssNodeId,
    product: ProductId,
)
    requires
        list.contains(product),
        failed(products, product),
    ensures
        error_paths(products, list, node).contains(
            PathView { predecessor: node, products: seq![product] },
        ),
    decreases list.len(),
{
    let path = PathView { predecessor: node, products: seq![product] };
    let all = error_paths(products, list, node);
    let before = error_paths(products, list.drop_last(), node);
    let at = list.index_of(product);
    if at == list.len() - 1 {
        assert(all[before.len() as int] == path);
    } else {
        assert(list.drop_last()[at] == product);
        lemma_error_listed(products, list.drop_last(), node, product);
        let k = before.index_of(path);
        assert(all[k] == path);
    }
}

/// A path is that of a chain.
pub open spec fn follows(
    edges: Seq<GssEdge>,
    node: GssNodeId,
    chain: Seq<int>,
    path: PathView,
) -> bool {
    &&& is_chain(edges, node, chain)
    &&& path.predecessor == chain_node(edges, node, chain, chain.len() as int)
    &&& path.products == chain_products(edges, chain)
}

/// A path is that of a chain to a node that no edge leaves, and of an error of
/// the column below it.
pub open spec fn follows_to_error(
    v: StackView,
    column: int,
    node: GssNodeId,
    chain: Seq<int>,
    path: PathView,
) -> bool {
    let edges = v.gss.edges;
    &&& is_chain(edges, node, chain)
    &&& path.predecessor == chain_node(edges, node, chain, chain.len() as int)
    &&& path.products.len() > 0
    &&& path.products.drop_first() == chain_products(edges, chain)
    &&& v.session.columns[column].products.contains(path.products[0])
    &&& failed(v.products, path.products[0])
    &&& forall|i: int|
        0 <= i < edges.len() ==> (#[trigger] edges[i]).from != path.predecessor
}

/// Nothing else is found: each path of a length is that of a chain of the length,
/// or ends in an error below a chain that is one shorter.
pub proof fn lemma_found_paths_are_chains(
    v: StackView,
    g: Grammar,
    column: int,
    node: GssNodeId,
    production: usize,
    depth: nat,
    path: PathView,
)
    requires
        v.gss.edges.len() <= usize::MAX,
        paths_from(v, g, column, node, production, depth).contains(path),
    ensures
        ({
            ||| exists|chain: Seq<int>|
                chain.len() == depth && #[trigger] follows(v.gss.edges, node, chain, path)
            ||| begins_with_errors(g, production) && exists|chain: Seq<int>|
                chain.len() + 1 == depth && #[trigger] follows_to_error(
                    v,
                    column,
                    node,
                    chain,
                    path,
                )
        }),
    decreases depth,
{
    let edges = v.gss.edges;
    let all = paths_from(v, g, column, node, production, depth);
    let none = Seq::<int>::empty();
    if depth == 0 {
        assert(path == all[0]);
        assert(chain_products(edges, none) =~= path.products);
        assert(follows(edges, node, none, path));
    } else {
        let leaving = edges_from(edges, node);
        let ids = edge_ids_from(edges, node);
        lemma_edge_ids(edges, node);
        let found = paths_over(v, g, column, production, depth, leaving, leaving.len());
        if found.contains(path) {
            let (k, lower) = lemma_path_below(
                v,
                g,
                column,
                production,
                depth,
                leaving,
                leaving.len(),
                path,
            );
            let first = ids[k] as int;
            assert(edges[first] == leaving[k]);
            let below = edges[first].to;
            lemma_found_paths_are_chains(
                v,
                g,
                column,
                below,
                production,
                (depth - 1) as nat,
                lower,
            );
            if exists|chain: Seq<int>|
                chain.len() == depth - 1 && #[trigger] follows(edges, below, chain, lower) {
                let rest = choose|chain: Seq<int>|
                    chain.len() == depth - 1 && #[trigger] follows(edges, below, chain, lower);
                lemma_chain_cons(edges, node, first, rest);
                assert(follows(edges, node, seq![first] + rest, path));
            } else {
                let rest = choose|chain: Seq<int>|
                    chain.len() + 1 == depth - 1 && #[trigger] follows_to_error(
                        v,
                        column,
                        below,
                        chain,
                        lower,
                    );
                lemma_chain_cons(edges, node, first, rest);
                assert(path.products.drop_first() =~= lower.products.drop_first().push(
                    edges[first].product,
                ));
                assert(follows_to_error(v, column, node, seq![first] + rest, path));
            }
        } else {
            let list = v.session.columns[column].products;
            lemma_error_is_listed(v.products, list, node, path);
            assert forall|i: int| 0 <= i < edges.len() implies (#[trigger] edges[i]).from
                != node by {
                if edges[i].from == node {
                    assert(paths_from(v, g, column, edges[i].to, production, 0)[0] == (PathView {
                        predecessor: edges[i].to,
                        products: Seq::empty(),
                    }));
                    let lower = PathView {
                        predecessor: edges[i].to,
                        products: Seq::<ProductId>::empty(),
                    };
                    assert(paths_from(v, g, column, edges[i].to, production, 0).contains(lower));
                    let at = ids.index_of(i as usize);
                    assert(ids.contains(i as usize));
                    assert(leaving[at] == edges[i]);
                    lemma_listed_within(
                        v,
                        g,
                        column,
                        production,
                        1,
                        leaving,
                        leaving.len(),
                        at,
                        lower,
                    );
                }
            }
            assert(path.products.drop_first() =~= chain_products(edges, none));
            assert(follows_to_error(v, column, node, none, path));
        }
    }
}

proof fn lemma_error_is_listed(
    products: Seq<ProductView>,
    list: Seq<ProductId>,
    node: GssNodeId,
    path: PathView,
)
    requires
        error_paths(products, list, node).contains(path),
    ensures
        path.predecessor == node,
        path.products.len() == 1,
        failed(products, path.products[0]),
        list.contains(path.products[0]),
    decreases list.len(),
{
    let all = error_paths(products, list, node);
    let k = all.index_of(path);
    let rest = list.drop_last();
    let before = error_paths(products, rest, node);
    if k < before.len() {
        assert(before[k] == path);
        lemma_error_is_listed(products, rest, node, path);
        let i = rest.index_of(path.products[0]);
        assert(list[i] == path.products[0]);
    } else {
        assert(list[list.len() - 1] == path.products[0]);
    }
}

/// The edge and the path below it that a path over edges is made of.
proof fn lemma_path_below(
    v: StackView,
    g: Grammar,
    column: int,
    production: usize,
    depth: nat,
    edges: Seq<GssEdge>,
    until: nat,
    path: PathView,
) -> (r: (int, PathView))
    requires
        depth > 0,
        until <= edges.len(),
        paths_over(v, g, column, production, depth, edges, until).contains(path),
    ensures
        0 <= r.0 < until,
        paths_from(v, g, column, edges[r.0].to, production, (depth - 1) as nat).contains(r.1),
        path.predecessor == r.1.predecessor,
        path.products == r.1.products.push(edges[r.0].product),
    decreases until,
{
    let all = paths_over(v, g, column, production, depth, edges, until);
    let at = all.index_of(path);
    let before = paths_over(v, g, column, production, depth, edges, (until - 1) as nat);
    if at < before.len() {
        assert(before[at] == path);
        lemma_path_below(v, g, column, production, depth, edges, (until - 1) as nat, path)
    } else {
        let k = until - 1;
        let below = paths_from(v, g, column, edges[k].to, production, (depth - 1) as nat);
        let j = at - before.len();
        assert(extended(below, edges[k].product)[j] == path);
        assert(below.contains(below[j]));
        (k, below[j])
    }
}

// ---------------------------------------------------------------------------
// Where nothing is left to reduce

/// The key that a reduction of products is kept under; one of nothing is kept
/// apart for each token that it stands before.
pub open spec fn reduction_key(gap: Gap, production: usize, products: Seq<ProductId>) -> KeyView {
    KeyView {
        production: production as u32,
        children: products,
        boundary: if products.len() == 0 {
            Some(gap.boundary)
        } else {
            None
        },
    }
}

/// Where nothing is left to reduce, every reduction that the table asks for is
/// done: for each active node with that action and each chain of the length of
/// the production, the product of the products on the chain is in the column,
/// and the state behind it stands on the end of the chain and is active.
pub proof fn lemma_every_reduction_is_done(
    parser: Parser,
    gap: Gap,
    v: StackView,
    node: GssNodeId,
    production: usize,
    chain: Seq<int>,
)
    requires
        stable(parser, gap, v),
        v.gss.edges.len() <= usize::MAX,
        v.session.columns[gap.column].active.contains(node),
        0 <= gap.column < v.session.columns.len(),
        parser.actions_at(v.gss.nodes[node as int].state, gap.lookahead).contains(
            Action::Reduce(production),
        ),
        is_chain(v.gss.edges, node, chain),
        chain.len() == parser.grammar.productions@[production as int].rhs_len,
    ensures
        ({
            let end = chain_node(v.gss.edges, node, chain, chain.len() as int);
            let key = reduction_key(gap, production, chain_products(v.gss.edges, chain));
            let product = v.reductions.products[key];
            let state = parser.goto_at(
                v.gss.nodes[end as int].state,
                parser.grammar.productions@[production as int].lhs,
            );
            let above = GssNode {
                state: state->Some_0,
                column: gap.column as usize,
                generation: v.session.generation,
            };
            let id = v.gss.nodes.index_of(above) as usize;
            &&& end < v.gss.nodes.len()
            &&& v.reductions.products.dom().contains(key)
            &&& v.session.columns[gap.column].products.contains(product)
            &&& state is Some
            &&& v.gss.nodes.contains(above)
            &&& v.session.columns[gap.column].active.contains(id)
            &&& v.gss.edges.contains(
                GssEdge { from: id, to: end, product, generation: v.session.generation },
            )
        }),
{
    let edges = v.gss.edges;
    let end = chain_node(edges, node, chain, chain.len() as int);
    let path = PathView { predecessor: end, products: chain_products(edges, chain) };
    lemma_every_chain_is_found(v, parser.grammar, gap.column, node, production, chain);
    let i = v.session.columns[gap.column].active.index_of(node);
    assert(node_done(parser, gap, v, v.session.columns[gap.column].active[i]));
    let actions = parser.actions_at(v.gss.nodes[node as int].state, gap.lookahead);
    let a = actions.index_of(Action::Reduce(production));
    assert(action_done(parser, gap, v, node, actions[a]));
    let paths = paths_from(v, parser.grammar, gap.column, node, production, chain.len());
    let k = paths.index_of(path);
    assert(path_done(parser, gap, v, production, paths[k]));
    let key = reduction_key(gap, production, path.products);
    let product = v.reductions.products[key];
    let lhs = parser.grammar.productions@[production as int].lhs;
    let state = parser.goto_at(v.gss.nodes[end as int].state, lhs)->Some_0;
    lemma_goto_is_there(v, gap.column, state, end, product);
}

proof fn lemma_goto_is_there(
    v: StackView,
    column: int,
    state: usize,
    below: GssNodeId,
    product: ProductId,
)
    requires
        0 <= column < v.session.columns.len(),
        after_goto(v, column, state, below, product) == v,
    ensures
        ({
            let node = GssNode { state, column: column as usize, generation: v.session.generation };
            let id = v.gss.nodes.index_of(node) as usize;
            &&& v.gss.nodes.contains(node)
            &&& v.session.columns[column].products.contains(product)
            &&& v.session.columns[column].active.contains(id)
            &&& v.gss.edges.contains(
                GssEdge { from: id, to: below, product, generation: v.session.generation },
            )
        }),
{
    let w = after_goto(v, column, state, below, product);
    let content = v.session.columns[column];
    let node = GssNode { state, column: column as usize, generation: v.session.generation };
    assert(w.session.columns[column] == content);
    if !v.gss.nodes.contains(node) {
        assert(w.gss.nodes.len() == v.gss.nodes.len() + 1);
    }
    let id = v.gss.nodes.index_of(node) as usize;
    if !content.products.contains(product) {
        assert(w.session.columns[column].products.len() == content.products.len() + 1);
    }
    if !content.active.contains(id) {
        assert(w.session.columns[column].active.len() == content.active.len() + 1);
    }
    let edge = GssEdge { from: id, to: below, product, generation: v.session.generation };
    if !v.gss.edges.contains(edge) {
        assert(w.gss.edges.len() == v.gss.edges.len() + 1);
    }
}

/// Where nothing is left to reduce, every reading is accepted: for each active
/// node that accepts and each chain of the length of the first production, the
/// product of the products on the chain is among the accepted ones.
pub proof fn lemma_every_reading_is_accepted(
    parser: Parser,
    gap: Gap,
    v: StackView,
    node: GssNodeId,
    chain: Seq<int>,
)
    requires
        stable(parser, gap, v),
        v.gss.edges.len() <= usize::MAX,
        v.session.columns[gap.column].active.contains(node),
        0 <= gap.column < v.session.columns.len(),
        parser.actions_at(v.gss.nodes[node as int].state, gap.lookahead).contains(Action::Accept),
        is_chain(v.gss.edges, node, chain),
        chain.len() == parser.grammar.productions@[0].rhs_len,
    ensures
        ({
            let key = reduction_key(gap, 0, chain_products(v.gss.edges, chain));
            let product = v.reductions.products[key];
            &&& v.reductions.products.dom().contains(key)
            &&& v.session.columns[gap.column].products.contains(product)
            &&& v.session.columns[gap.column].accepted.contains(product)
        }),
{
    let edges = v.gss.edges;
    let path = PathView {
        predecessor: chain_node(edges, node, chain, chain.len() as int),
        products: chain_products(edges, chain),
    };
    lemma_every_chain_is_found(v, parser.grammar, gap.column, node, 0, chain);
    let i = v.session.columns[gap.column].active.index_of(node);
    assert(node_done(parser, gap, v, v.session.columns[gap.column].active[i]));
    let actions = parser.actions_at(v.gss.nodes[node as int].state, gap.lookahead);
    let a = actions.index_of(Action::Accept);
    assert(action_done(parser, gap, v, node, actions[a]));
    assert(actions[a] == Action::Accept);
    assert(rhs_len(parser, 0) == chain.len());
    let paths = paths_from(v, parser.grammar, gap.column, node, 0, rhs_len(parser, 0));
    let k = paths.index_of(path);
    assert(paths[k] == path);
    assert(accept_done(gap, v, paths[k]));
    let key = reduction_key(gap, 0, path.products);
    let product = v.reductions.products[key];
    let w = after_accept(v, gap.column, product);
    let content = v.session.columns[gap.column];
    assert(w.session.columns[gap.column] == content);
    if !content.products.contains(product) {
        assert(w.session.columns[gap.column].products.len() == content.products.len() + 1);
    }
    if !content.accepted.contains(product) {
        assert(w.session.columns[gap.column].accepted.len() == content.accepted.len() + 1);
    }
}

} // verus!
