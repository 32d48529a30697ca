//! What taking a token does to the stacks.

use vstd::prelude::*;

use crate::framework::parse::data::green::{DataView, ErrorKind, ParseErrorInfo, TreeView};
use crate::framework::parse::data::gss::{GssEdge, GssNode, GssNodeId, GssView};
use crate::framework::parse::data::product::{ProductDataView, ProductId};
use crate::framework::parse::grammar::{Symbol, TerminalId};
use crate::framework::parse::parsing::reduce::{node_id, with_node};
use crate::framework::lex::lexed::TokenOccurrenceId;
use crate::framework::parse::parsing::shift::{
    error_pushed_over, grown_tops, missing_info, no_shift, shifted, shifts_from, shifts_in,
    token_dropped, token_dropped_over, token_taken, unexpected_info, ParseToken, ShiftTarget,
};
use crate::framework::parse::parsing::session::token_product_of;
use crate::framework::parse::parsing::stack::StackView;
use crate::framework::parse::tables::{Action, Parser};

verus! {

/// A node of a list can shift a terminal to a state.
pub open spec fn can_shift(
    parser: Parser,
    gss: GssView,
    nodes: Seq<GssNodeId>,
    terminal: TerminalId,
    node: GssNodeId,
    state: usize,
) -> bool {
    nodes.contains(node) && parser.actions_at(gss.nodes[node as int].state, terminal).contains(
        Action::Shift(state),
    )
}

/// The edge that a shift asks for: from the node of the state behind the token
/// down to the node that shifts, over the product of the token.
pub open spec fn shift_edge(
    gss: GssView,
    node: GssNodeId,
    state: usize,
    column: usize,
    generation: u32,
    product: ProductId,
) -> GssEdge {
    GssEdge {
        from: gss.nodes.index_of(GssNode { state, column, generation }) as usize,
        to: node,
        product,
        generation,
    }
}

proof fn lemma_shifts_in(node: GssNodeId, actions: Seq<Action>, target: ShiftTarget)
    ensures
        shifts_in(node, actions).contains(target) <==> target.node == node && actions.contains(
            Action::Shift(target.state),
        ),
    decreases actions.len(),
{
    if actions.len() > 0 {
        let rest = actions.drop_last();
        lemma_shifts_in(node, rest, target);
        let before = shifts_in(node, rest);
        let all = shifts_in(node, actions);
        let shift = Action::Shift(target.state);
        if rest.contains(shift) {
            let k = rest.index_of(shift);
            assert(actions[k] == shift);
        }
        if before.contains(target) {
            let k = before.index_of(target);
            assert(all[k] == target);
        }
        if actions.last() == shift && target.node == node {
            assert(all[before.len() as int] == target);
        }
        if actions.contains(shift) {
            let k = actions.index_of(shift);
            if k < rest.len() {
                assert(rest[k] == shift);
            }
        }
        if all.contains(target) {
            let k = all.index_of(target);
            if k < before.len() {
                assert(before[k] == target);
            } else {
                assert(actions[actions.len() - 1] == shift);
            }
        }
    }
}

proof fn lemma_shifts_from(
    parser: Parser,
    gss: GssView,
    nodes: Seq<GssNodeId>,
    terminal: TerminalId,
    target: ShiftTarget,
)
    ensures
        shifts_from(parser, gss, nodes, terminal).contains(target) <==> can_shift(
            parser,
            gss,
            nodes,
            terminal,
            target.node,
            target.state,
        ),
    decreases nodes.len(),
{
    if nodes.len() > 0 {
        let rest = nodes.drop_last();
        let last = nodes.last();
        lemma_shifts_from(parser, gss, rest, terminal, target);
        let before = shifts_from(parser, gss, rest, terminal);
        let own = shifts_in(last, parser.actions_at(gss.nodes[last as int].state, terminal));
        lemma_shifts_in(
            last,
            parser.actions_at(gss.nodes[last as int].state, terminal),
            target,
        );
        let all = before + own;
        if before.contains(target) {
            let k = before.index_of(target);
            assert(all[k] == target);
            let n = rest.index_of(target.node);
            assert(nodes[n] == target.node);
        }
        if own.contains(target) {
            let k = own.index_of(target);
            assert(all[before.len() + k] == target);
            assert(nodes[nodes.len() - 1] == last);
        }
        if all.contains(target) {
            let k = all.index_of(target);
            if k < before.len() {
                assert(before[k] == target);
            } else {
                assert(own[k - before.len()] == target);
            }
        }
        if nodes.contains(target.node) {
            let n = nodes.index_of(target.node);
            if n < rest.len() {
                assert(rest[n] == target.node);
            }
        }
    }
}

/// The place of a node in a list without repetitions does not change where the
/// list grows.
proof fn lemma_place_stays(nodes: Seq<GssNode>, more: Seq<GssNode>, node: GssNode)
    requires
        nodes.is_prefix_of(more),
        more.no_duplicates(),
        nodes.contains(node),
    ensures
        more.contains(node),
        more.index_of(node) == nodes.index_of(node),
{
    let k = nodes.index_of(node);
    assert(nodes[k] == node);
    assert(more.subrange(0, nodes.len() as int)[k] == node);
    assert(more[k] == node);
    let j = more.index_of(node);
    assert(more[j] == node);
}

proof fn lemma_shifted(
    gss: GssView,
    targets: Seq<ShiftTarget>,
    column: usize,
    generation: u32,
    product: ProductId,
)
    requires
        gss.nodes.no_duplicates(),
        gss.nodes.len() + targets.len() <= usize::MAX,
    ensures
        ({
            let (after, active) = shifted(gss, targets, column, generation, product);
            &&& after.nodes.no_duplicates()
            &&& after.nodes.len() <= gss.nodes.len() + targets.len()
            &&& gss.nodes.is_prefix_of(after.nodes)
            &&& gss.edges.is_prefix_of(after.edges)
            &&& forall|t: int|
                0 <= t < targets.len() ==> shift_stands(
                    gss,
                    after,
                    active,
                    #[trigger] targets[t],
                    column,
                    generation,
                    product,
                )
            &&& forall|e: int|
                gss.edges.len() <= e < after.edges.len() ==> exists|t: int|
                    0 <= t < targets.len() && #[trigger] after.edges[e] == shift_edge(
                        after,
                        (#[trigger] targets[t]).node,
                        targets[t].state,
                        column,
                        generation,
                        product,
                    )
            &&& forall|a: int|
                0 <= a < active.len() ==> exists|t: int|
                    0 <= t < targets.len() && #[trigger] active[a] == shift_edge(
                        after,
                        (#[trigger] targets[t]).node,
                        targets[t].state,
                        column,
                        generation,
                        product,
                    ).from
        }),
    decreases targets.len(),
{
    if targets.len() == 0 {
        assert(gss.nodes =~= gss.nodes.subrange(0, gss.nodes.len() as int));
        assert(gss.edges =~= gss.edges.subrange(0, gss.edges.len() as int));
    } else {
        let rest = targets.drop_last();
        let last = targets.last();
        lemma_shifted(gss, rest, column, generation, product);
        let (before, tops) = shifted(gss, rest, column, generation, product);
        let (after, active) = shifted(gss, targets, column, generation, product);
        let node = GssNode { state: last.state, column, generation };
        let mid = with_node(before, node);
        assert(before.nodes.is_prefix_of(mid.nodes)) by {
            assert(before.nodes =~= mid.nodes.subrange(0, before.nodes.len() as int));
        }
        assert(mid.nodes.no_duplicates());
        assert(after.nodes == mid.nodes);
        if !before.nodes.contains(node) {
            assert(mid.nodes[before.nodes.len() as int] == node);
        }
        assert(mid.nodes.contains(node));
        let id = node_id(mid, node);
        let edge = GssEdge { from: id, to: last.node, product, generation };
        assert(edge == shift_edge(after, last.node, last.state, column, generation, product));
        assert(before.edges.is_prefix_of(after.edges)) by {
            assert(before.edges =~= after.edges.subrange(0, before.edges.len() as int));
        }
        assert(gss.nodes.is_prefix_of(after.nodes)) by {
            assert forall|i: int| 0 <= i < gss.nodes.len() implies gss.nodes[i]
                == after.nodes[i] by {
                assert(gss.nodes[i] == before.nodes.subrange(0, gss.nodes.len() as int)[i]);
            }
            assert(gss.nodes =~= after.nodes.subrange(0, gss.nodes.len() as int));
        }
        assert(gss.edges.is_prefix_of(after.edges)) by {
            assert forall|i: int| 0 <= i < gss.edges.len() implies gss.edges[i]
                == after.edges[i] by {
                assert(gss.edges[i] == before.edges.subrange(0, gss.edges.len() as int)[i]);
            }
            assert(gss.edges =~= after.edges.subrange(0, gss.edges.len() as int));
        }
        if !mid.edges.contains(edge) {
            assert(after.edges[before.edges.len() as int] == edge);
        }
        assert(after.edges.contains(edge));
        assert forall|t: int| 0 <= t < targets.len() implies shift_stands(
            gss,
            after,
            active,
            #[trigger] targets[t],
            column,
            generation,
            product,
        ) by {
            let target = targets[t];
            let own = GssNode { state: target.state, column, generation };
            if t < rest.len() {
                assert(rest[t] == target);
                lemma_place_stays(before.nodes, after.nodes, own);
                let old_edge = shift_edge(
                    before,
                    target.node,
                    target.state,
                    column,
                    generation,
                    product,
                );
                let k = before.edges.index_of(old_edge);
                assert(after.edges[k] == old_edge);
                if !gss.edges.contains(old_edge) {
                    let a = tops.index_of(old_edge.from);
                    assert(tops.contains(old_edge.from));
                    assert(active[a] == old_edge.from);
                }
            } else {
                if !gss.edges.contains(edge) {
                    if mid.edges.contains(edge) {
                        let e = before.edges.index_of(edge);
                        assert(before.edges[e] == edge);
                        if e < gss.edges.len() {
                            assert(gss.edges[e] == before.edges.subrange(
                                0,
                                gss.edges.len() as int,
                            )[e]);
                            assert(gss.edges.contains(edge));
                        }
                        let u = choose|u: int|
                            0 <= u < rest.len() && before.edges[e] == shift_edge(
                                before,
                                (#[trigger] rest[u]).node,
                                rest[u].state,
                                column,
                                generation,
                                product,
                            );
                        assert(shift_stands(
                            gss,
                            before,
                            tops,
                            rest[u],
                            column,
                            generation,
                            product,
                        ));
                        assert(tops.contains(edge.from));
                        assert(active == tops);
                    } else if tops.contains(id) {
                        assert(active == tops);
                    } else {
                        assert(active[tops.len() as int] == id);
                    }
                }
            }
        }
        assert forall|e: int| gss.edges.len() <= e < after.edges.len() implies exists|t: int|
            0 <= t < targets.len() && #[trigger] after.edges[e] == shift_edge(
                after,
                (#[trigger] targets[t]).node,
                targets[t].state,
                column,
                generation,
                product,
            ) by {
            if e < before.edges.len() {
                assert(after.edges[e] == before.edges[e]);
                let t = choose|t: int|
                    0 <= t < rest.len() && before.edges[e] == shift_edge(
                        before,
                        (#[trigger] rest[t]).node,
                        rest[t].state,
                        column,
                        generation,
                        product,
                    );
                assert(targets[t] == rest[t]);
                assert(shift_stands(gss, before, tops, rest[t], column, generation, product));
                lemma_place_stays(
                    before.nodes,
                    after.nodes,
                    GssNode { state: rest[t].state, column, generation },
                );
            } else {
                assert(targets[targets.len() - 1] == last);
            }
        }
        assert forall|a: int| 0 <= a < active.len() implies exists|t: int|
            0 <= t < targets.len() && #[trigger] active[a] == shift_edge(
                after,
                (#[trigger] targets[t]).node,
                targets[t].state,
                column,
                generation,
                product,
            ).from by {
            if a < tops.len() {
                assert(active[a] == tops[a]);
                let t = choose|t: int|
                    0 <= t < rest.len() && tops[a] == shift_edge(
                        before,
                        (#[trigger] rest[t]).node,
                        rest[t].state,
                        column,
                        generation,
                        product,
                    ).from;
                assert(targets[t] == rest[t]);
                assert(shift_stands(gss, before, tops, rest[t], column, generation, product));
                lemma_place_stays(
                    before.nodes,
                    after.nodes,
                    GssNode { state: rest[t].state, column, generation },
                );
            } else {
                assert(targets[targets.len() - 1] == last);
            }
        }
    }
}

/// What a shift asks for is there; where its edge is new, the node on top of it
/// is active.
pub open spec fn shift_stands(
    gss: GssView,
    after: GssView,
    active: Seq<GssNodeId>,
    target: ShiftTarget,
    column: usize,
    generation: u32,
    product: ProductId,
) -> bool {
    let edge = shift_edge(after, target.node, target.state, column, generation, product);
    &&& after.nodes.contains(GssNode { state: target.state, column, generation })
    &&& after.edges.contains(edge)
    &&& !gss.edges.contains(edge) ==> active.contains(edge.from)
}

/// The product of a token that was taken: one that was known for it, or a new one
/// that is the token itself, with a leaf of its terminal and length.
pub open spec fn is_token_product(
    v: StackView,
    w: StackView,
    token: ParseToken,
    product: ProductId,
) -> bool {
    if let Some(known) = token_product_of(v.session, token.column) {
        product == known
    } else {
        &&& product == v.products.len()
        &&& product < w.products.len()
        &&& w.products[product as int].data == (ProductDataView::Token {
            entry: token.entry,
            ast: None,
        })
        &&& w.products[product as int].green < w.trees.len()
        &&& w.trees[w.products[product as int].green as int] == (TreeView {
            length: token.length,
            data: DataView::Leaf { id: token.terminal },
        })
    }
}

/// Every stack that can take a token takes it: from each active node that shifts
/// the terminal a state of the new column stands on it, over the product of the
/// token, and is active there where that is new.
pub proof fn lemma_every_stack_shifts(
    parser: Parser,
    v: StackView,
    w: StackView,
    token: ParseToken,
    active: Seq<GssNodeId>,
    mid: StackView,
    product: ProductId,
    node: GssNodeId,
    state: usize,
)
    requires
        token_taken(
            v,
            w,
            token,
            shifts_from(parser, v.gss, active, token.terminal),
            mid,
            product,
        ),
        v.gss.nodes.no_duplicates(),
        v.gss.nodes.len() + shifts_from(parser, v.gss, active, token.terminal).len() <= usize::MAX,
        can_shift(parser, v.gss, active, token.terminal, node, state),
    ensures
        is_token_product(v, w, token, product),
        w.session.columns.len() == v.session.columns.len() + 1,
        ({
            let column = v.session.columns.len() as usize;
            let above = GssNode { state, column, generation: v.session.generation };
            let id = w.gss.nodes.index_of(above) as usize;
            let edge = GssEdge { from: id, to: node, product, generation: v.session.generation };
            &&& w.gss.nodes.contains(above)
            &&& w.gss.edges.contains(edge)
            &&& !v.gss.edges.contains(edge) ==> w.session.columns.last().active.contains(id)
            &&& w.session.columns.last().token == Some(token.column)
            &&& w.session.columns.last().products == seq![product]
        }),
{
    let targets = shifts_from(parser, v.gss, active, token.terminal);
    let target = ShiftTarget { node, state };
    lemma_shifts_from(parser, v.gss, active, token.terminal, target);
    let t = targets.index_of(target);
    let column = v.session.columns.len() as usize;
    assert(mid.gss == v.gss);
    lemma_shifted(v.gss, targets, column, v.session.generation, product);
    let (after, tops) = shifted(v.gss, targets, column, v.session.generation, product);
    assert(shift_stands(
        v.gss,
        after,
        tops,
        targets[t],
        column,
        v.session.generation,
        product,
    ));
    assert(w.products == mid.products && w.trees == mid.trees);
}

/// An edge is that of a shift of a token.
pub open spec fn edge_of_shift(
    parser: Parser,
    v: StackView,
    w: StackView,
    active: Seq<GssNodeId>,
    terminal: TerminalId,
    product: ProductId,
    edge: GssEdge,
) -> bool {
    exists|node: GssNodeId, state: usize| #[trigger]
        can_shift(parser, v.gss, active, terminal, node, state) && edge == shift_edge(
            w.gss,
            node,
            state,
            v.session.columns.len() as usize,
            v.session.generation,
            product,
        )
}

/// A node is on top of the edge of a shift of a token.
pub open spec fn top_of_shift(
    parser: Parser,
    v: StackView,
    w: StackView,
    active: Seq<GssNodeId>,
    terminal: TerminalId,
    product: ProductId,
    top: GssNodeId,
) -> bool {
    exists|node: GssNodeId, state: usize| #[trigger]
        can_shift(parser, v.gss, active, terminal, node, state) && top == shift_edge(
            w.gss,
            node,
            state,
            v.session.columns.len() as usize,
            v.session.generation,
            product,
        ).from
}

/// Nothing else comes of taking a token: each new edge and each active node of
/// the new column is that of a shift.
pub proof fn lemma_only_shifts_grow(
    parser: Parser,
    v: StackView,
    w: StackView,
    token: ParseToken,
    active: Seq<GssNodeId>,
    mid: StackView,
    product: ProductId,
)
    requires
        token_taken(
            v,
            w,
            token,
            shifts_from(parser, v.gss, active, token.terminal),
            mid,
            product,
        ),
        v.gss.nodes.no_duplicates(),
        v.gss.nodes.len() + shifts_from(parser, v.gss, active, token.terminal).len() <= usize::MAX,
    ensures
        v.gss.edges.is_prefix_of(w.gss.edges),
        v.gss.nodes.is_prefix_of(w.gss.nodes),
        forall|e: int|
            v.gss.edges.len() <= e < w.gss.edges.len() ==> edge_of_shift(
                parser,
                v,
                w,
                active,
                token.terminal,
                product,
                #[trigger] w.gss.edges[e],
            ),
        forall|top: GssNodeId| #[trigger]
            w.session.columns.last().active.contains(top) ==> top_of_shift(
                parser,
                v,
                w,
                active,
                token.terminal,
                product,
                top,
            ),
{
    let targets = shifts_from(parser, v.gss, active, token.terminal);
    let column = v.session.columns.len() as usize;
    assert(mid.gss == v.gss);
    lemma_shifted(v.gss, targets, column, v.session.generation, product);
    let (after, tops) = shifted(v.gss, targets, column, v.session.generation, product);
    assert(w.gss == after);
    assert forall|e: int| v.gss.edges.len() <= e < w.gss.edges.len() implies edge_of_shift(
        parser,
        v,
        w,
        active,
        token.terminal,
        product,
        #[trigger] w.gss.edges[e],
    ) by {
        let t = choose|t: int|
            0 <= t < targets.len() && after.edges[e] == shift_edge(
                after,
                (#[trigger] targets[t]).node,
                targets[t].state,
                column,
                v.session.generation,
                product,
            );
        assert(targets.contains(targets[t]));
        lemma_shifts_from(parser, v.gss, active, token.terminal, targets[t]);
    }
    assert(w.session.columns.last().active == tops);
    assert forall|top: GssNodeId| #[trigger]
        w.session.columns.last().active.contains(top) implies top_of_shift(
        parser,
        v,
        w,
        active,
        token.terminal,
        product,
        top,
    ) by {
        let a = tops.index_of(top);
        assert(tops[a] == top);
        let t = choose|t: int|
            0 <= t < targets.len() && tops[a] == shift_edge(
                after,
                (#[trigger] targets[t]).node,
                targets[t].state,
                column,
                v.session.generation,
                product,
            ).from;
        assert(targets.contains(targets[t]));
        lemma_shifts_from(parser, v.gss, active, token.terminal, targets[t]);
    }
}

/// The column that a token would lead to is new: no node is in it, and no edge
/// leaves a node that is not there.
pub open spec fn is_new_column(gss: GssView, column: usize) -> bool {
    &&& forall|i: int| 0 <= i < gss.nodes.len() ==> (#[trigger] gss.nodes[i]).column != column
    &&& forall|i: int|
        0 <= i < gss.edges.len() ==> (#[trigger] gss.edges[i]).from < gss.nodes.len()
}

/// Where a stack can shift a terminal, it is not so that none can.
pub proof fn lemma_some_stack_shifts(
    parser: Parser,
    v: StackView,
    terminal: TerminalId,
    node: GssNodeId,
    state: usize,
)
    requires
        v.gss.nodes.no_duplicates(),
        v.gss.nodes.len() + shifts_from(
            parser,
            v.gss,
            v.session.columns.last().active,
            terminal,
        ).len() <= usize::MAX,
        is_new_column(v.gss, v.session.columns.len() as usize),
        can_shift(parser, v.gss, v.session.columns.last().active, terminal, node, state),
    ensures
        !no_shift(parser, v, terminal),
{
    let active = v.session.columns.last().active;
    let targets = shifts_from(parser, v.gss, active, terminal);
    let column = v.session.columns.len() as usize;
    let target = ShiftTarget { node, state };
    lemma_shifts_from(parser, v.gss, active, terminal, target);
    let t = targets.index_of(target);
    assert forall|product: ProductId| (#[trigger] grown_tops(parser, v, terminal, product)).len()
        > 0 by {
        lemma_shifted(v.gss, targets, column, v.session.generation, product);
        let (after, tops) = shifted(v.gss, targets, column, v.session.generation, product);
        assert(shift_stands(
            v.gss,
            after,
            tops,
            targets[t],
            column,
            v.session.generation,
            product,
        ));
        let above = GssNode { state, column, generation: v.session.generation };
        let edge = shift_edge(after, node, state, column, v.session.generation, product);
        let at = after.nodes.index_of(above);
        assert(after.nodes[at] == above);
        assert(at >= v.gss.nodes.len()) by {
            if at < v.gss.nodes.len() {
                assert(after.nodes.subrange(0, v.gss.nodes.len() as int)[at] == above);
                assert(v.gss.nodes[at] == above);
            }
        }
        assert(!v.gss.edges.contains(edge)) by {
            if v.gss.edges.contains(edge) {
                let e = v.gss.edges.index_of(edge);
                assert(v.gss.edges[e].from < v.gss.nodes.len());
            }
        }
        assert(tops.contains(edge.from));
    }
}

/// Where no stack can shift a terminal, none does.
pub proof fn lemma_no_stack_shifts(parser: Parser, v: StackView, terminal: TerminalId)
    requires
        forall|node: GssNodeId, state: usize|
            !#[trigger] can_shift(
                parser,
                v.gss,
                v.session.columns.last().active,
                terminal,
                node,
                state,
            ),
    ensures
        no_shift(parser, v, terminal),
{
    let active = v.session.columns.last().active;
    let targets = shifts_from(parser, v.gss, active, terminal);
    if targets.len() > 0 {
        assert(targets.contains(targets[0]));
        lemma_shifts_from(parser, v.gss, active, terminal, targets[0]);
    }
    let product: ProductId = 0;
    assert(grown_tops(parser, v, terminal, product).len() == 0);
}

/// Every active stack that can shift a terminal grows over an error that stands
/// for it: an error is made, and the state behind it stands on the stack.
pub proof fn lemma_every_stack_shifts_an_error(
    parser: Parser,
    v: StackView,
    w: StackView,
    token: Option<TokenOccurrenceId>,
    terminal: TerminalId,
    info: ParseErrorInfo,
    anchor: TokenOccurrenceId,
    made: StackView,
    product: ProductId,
    node: GssNodeId,
    state: usize,
)
    requires
        ({
            let active = v.session.columns.last().active;
            let targets = shifts_from(parser, v.gss, active, terminal);
            &&& error_pushed_over(v, w, token, targets, info, anchor, made, product)
            &&& v.gss.nodes.len() + targets.len() <= usize::MAX
            &&& can_shift(parser, v.gss, active, terminal, node, state)
        }),
        v.gss.nodes.no_duplicates(),
    ensures
        product == v.products.len(),
        w.products.len() == v.products.len() + 1,
        w.products[product as int].data is Error,
        w.trees[w.products[product as int].green as int].length == info.length,
        w.session.columns.len() == v.session.columns.len() + 1,
        w.session.columns.last().token == token,
        w.session.columns.last().error_derived,
        w.session.columns.last().products == seq![product],
        ({
            let column = v.session.columns.len() as usize;
            let above = GssNode { state, column, generation: v.session.generation };
            let id = w.gss.nodes.index_of(above) as usize;
            let edge = GssEdge { from: id, to: node, product, generation: v.session.generation };
            &&& w.gss.nodes.contains(above)
            &&& w.gss.edges.contains(edge)
            &&& !v.gss.edges.contains(edge) ==> w.session.columns.last().active.contains(id)
        }),
{
    let active = v.session.columns.last().active;
    let targets = shifts_from(parser, v.gss, active, terminal);
    let target = ShiftTarget { node, state };
    lemma_shifts_from(parser, v.gss, active, terminal, target);
    let t = targets.index_of(target);
    let column = v.session.columns.len() as usize;
    assert(made.gss == v.gss);
    lemma_shifted(v.gss, targets, column, v.session.generation, product);
    let (after, tops) = shifted(v.gss, targets, column, v.session.generation, product);
    assert(shift_stands(
        v.gss,
        after,
        tops,
        targets[t],
        column,
        v.session.generation,
        product,
    ));
    assert(made.products.last() == made.products[product as int]);
}

/// Dropping a token leaves the stacks as they were: the same ones are active
/// behind it, and it stands there as an error of its length.
pub proof fn lemma_dropped_token_leaves_the_stacks(
    v: StackView,
    w: StackView,
    token: ParseToken,
    info: ParseErrorInfo,
)
    requires
        v.session.columns.len() > 0,
        token_dropped(v, w, token, info),
    ensures
        w.gss == v.gss,
        w.session.columns.len() == v.session.columns.len() + 1,
        v.session.columns.is_prefix_of(w.session.columns),
        w.session.columns.last().active == v.session.columns.last().active,
        w.session.columns.last().base == v.session.columns.last().active,
        w.session.columns.last().token == Some(token.column),
        w.session.columns.last().error_derived,
        w.session.token_columns.dom().contains(token.column.0),
        w.session.token_columns[token.column.0] == v.session.columns.len() as usize,
        w.products.len() == v.products.len() + 1,
        w.session.columns.last().products == seq![v.products.len() as usize],
        w.products.last().data is Error,
        w.trees[w.products.last().green as int].length == info.length,
{
    let (made, product) = choose|made: StackView, product: ProductId| #[trigger]
        token_dropped_over(v, w, token, info, made, product);
    assert(token_dropped_over(v, w, token, info, made, product));
    assert(made.session == v.session);
    assert(v.session.columns =~= w.session.columns.subrange(
        0,
        v.session.columns.len() as int,
    ));
}

/// What is said of a terminal that is made up names it as what was expected, has
/// no length, and tells what stood there; what is said of a token that is dropped
/// has its length and names it as what was unexpected. Both count as mended.
pub proof fn lemma_errors_say_what_happened(
    parser: Parser,
    terminal: TerminalId,
    unexpected: Option<Symbol>,
    length: usize,
    location: usize,
)
    ensures
        ({
            let missing = missing_info(parser, terminal, unexpected, location);
            let dropped = unexpected_info(parser, length, unexpected, location);
            &&& missing.kind == ErrorKind::MissingToken
            &&& missing.expected == Symbol::T(terminal)
            &&& missing.unexpected == unexpected
            &&& missing.length == 0
            &&& missing.location == Some(location)
            &&& missing.recovered
            &&& dropped.kind == ErrorKind::UnexpectedToken
            &&& dropped.unexpected == unexpected
            &&& dropped.length == length
            &&& dropped.location == Some(location)
            &&& dropped.recovered
        }),
{
}

} // verus!
