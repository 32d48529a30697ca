//! Taking a token, making one up, and dropping one.

use vstd::prelude::*;

use crate::collections::{node_items, node_set_insert, node_set_len, node_set_new};
use crate::framework::lex::lexed::TokenOccurrenceId;
use crate::framework::parse::data::ast::AnchoredSpan;
use crate::framework::parse::data::green::{DataView, ErrorKind, ParseErrorInfo, TreeView};
use crate::framework::parse::data::gss::{GssEdge, GssNode, GssNodeId, GssView};
use crate::framework::parse::data::product::{ProductDataView, ProductId};
use crate::framework::parse::diagnostics::noted;
use crate::framework::parse::grammar::{Symbol, TerminalId};
use crate::framework::parse::parsing::columns::{fresh_column, with_id, ColumnView, ParseColumn};
use crate::framework::parse::parsing::error::ParseError;
use crate::framework::parse::parsing::growth::{
    built_on, grown, lemma_built_grown, lemma_built_same, lemma_built_trans, lemma_grown_product,
    lemma_grown_same, lemma_grown_self, lemma_grown_stacks, lemma_grown_trans, lemma_prefix_push,
    lemma_prefix_self,
};
use crate::framework::parse::parsing::reduce::{
    node_id, reduce_failed, reduces_to, stable, with_edge, with_node, Gap,
};
use crate::framework::parse::parsing::session::{
    extends_columns, token_product_of, with_column, SessionView,
};
use crate::framework::parse::parsing::stack::{
    anchor_place, error_extent, error_tree, states_fit, with_product, Language, SessionContext,
    StackView,
};
use crate::framework::parse::tables::{action_items, lemma_shift_fits, Action, Parser};

verus! {

/// A token as the parser takes it.
#[derive(Clone, Copy, Debug, PartialEq, Eq, Structural)]
pub struct ParseToken {
    pub entry: usize,
    pub column: TokenOccurrenceId,
    pub start: usize,
    pub terminal: TerminalId,
    pub length: usize,
    /// Where the token is taken for an error, the terminal that it has.
    pub merge_source_terminal: Option<TerminalId>,
}

/// A node from which a terminal can be shifted, and the state behind it.
#[derive(Clone, Copy, Debug, PartialEq, Eq, Structural)]
pub struct ShiftTarget {
    pub node: GssNodeId,
    pub state: usize,
}

/// The shifts among actions.
pub open spec fn shifts_in(node: GssNodeId, actions: Seq<Action>) -> Seq<ShiftTarget>
    decreases actions.len(),
{
    if actions.len() == 0 {
        Seq::empty()
    } else {
        let before = shifts_in(node, actions.drop_last());
        match actions.last() {
            Action::Shift(state) => before.push(ShiftTarget { node, state }),
            _ => before,
        }
    }
}

/// The shifts from nodes, in their order.
pub open spec fn shifts_from(
    parser: Parser,
    gss: GssView,
    nodes: Seq<GssNodeId>,
    terminal: TerminalId,
) -> Seq<ShiftTarget>
    decreases nodes.len(),
{
    if nodes.len() == 0 {
        Seq::empty()
    } else {
        shifts_from(parser, gss, nodes.drop_last(), terminal) + shifts_in(
            nodes.last(),
            parser.actions_at(gss.nodes[nodes.last() as int].state, terminal),
        )
    }
}

/// All nodes of a list are there.
pub open spec fn nodes_there(gss: GssView, nodes: Seq<GssNodeId>) -> bool {
    forall|i: int| 0 <= i < nodes.len() ==> (#[trigger] nodes[i]) < gss.nodes.len()
}

/// The stacks after shifts, and the nodes on top of new edges.
pub open spec fn shifted(
    gss: GssView,
    targets: Seq<ShiftTarget>,
    column: usize,
    generation: u32,
    product: ProductId,
) -> (GssView, Seq<GssNodeId>)
    decreases targets.len(),
{
    if targets.len() == 0 {
        (gss, Seq::empty())
    } else {
        let (before, active) = shifted(gss, targets.drop_last(), column, generation, product);
        let target = targets.last();
        let node = GssNode { state: target.state, column, generation };
        let grown = with_node(before, node);
        let id = node_id(grown, node);
        let edge = GssEdge { from: id, to: target.node, product, generation };
        (
            with_edge(grown, edge),
            if grown.edges.contains(edge) {
                active
            } else {
                with_id(active, id)
            },
        )
    }
}

/// All states of targets are states of the parser.
pub open spec fn targets_fit(targets: Seq<ShiftTarget>, states: nat) -> bool {
    forall|i: int| 0 <= i < targets.len() ==> (#[trigger] targets[i]).state < states
}

/// What is said of a token that nothing can be done with.
pub open spec fn unexpected_info(
    parser: Parser,
    length: usize,
    unexpected: Option<Symbol>,
    location: usize,
) -> ParseErrorInfo {
    ParseErrorInfo {
        kind: ErrorKind::UnexpectedToken,
        node: parser.grammar.error_non_terminal,
        length,
        unexpected,
        expected: Symbol::T(parser.grammar.error_terminal),
        recovered: true,
        location: Some(location),
    }
}

/// What is said of a terminal that was made up.
pub open spec fn missing_info(
    parser: Parser,
    terminal: TerminalId,
    unexpected: Option<Symbol>,
    location: usize,
) -> ParseErrorInfo {
    ParseErrorInfo {
        kind: ErrorKind::MissingToken,
        node: parser.grammar.error_non_terminal,
        length: 0,
        unexpected,
        expected: Symbol::T(terminal),
        recovered: true,
        location: Some(location),
    }
}

/// A terminal as a symbol, where there is one.
pub open spec fn as_symbol(terminal: Option<TerminalId>) -> Option<Symbol> {
    match terminal {
        Some(id) => Some(Symbol::T(id)),
        None => None,
    }
}

/// The column behind an error.
pub open spec fn error_column(token: Option<TokenOccurrenceId>, active: Seq<GssNodeId>, product: ProductId) -> ColumnView {
    ColumnView {
        products: seq![product],
        error_derived: true,
        ..fresh_column(token, active)
    }
}

/// The work with a column more and a diagnostic noted.
pub open spec fn with_error_column(v: StackView, column: ColumnView, info: ParseErrorInfo) -> StackView {
    let grown = with_column(v.session, column);
    StackView {
        session: SessionView { diagnostics: noted(grown.diagnostics, info), ..grown },
        ..v
    }
}

/// The product of a token, made where it is not known.
pub open spec fn token_ready(v: StackView, w: StackView, token: ParseToken, product: ProductId) -> bool {
    match token_product_of(v.session, token.column) {
        Some(known) => product == known && w == v,
        None => exists|mid: StackView| #[trigger]
            with_product(
                v,
                mid,
                TreeView { length: token.length, data: DataView::Leaf { id: token.terminal } },
                ProductDataView::Token { entry: token.entry, ast: None },
                AnchoredSpan {
                    start: anchor_place(token.column),
                    end: anchor_place(token.column),
                    end_at_token_end: true,
                },
            ) && product == v.products.len() && w == (StackView {
                session: SessionView {
                    token_products: v.session.token_products.insert(token.column.0, product),
                    ..mid.session
                },
                ..mid
            }),
    }
}

/// The work after a token was taken along the given shifts.
pub open spec fn token_taken(
    v: StackView,
    w: StackView,
    token: ParseToken,
    targets: Seq<ShiftTarget>,
    mid: StackView,
    product: ProductId,
) -> bool {
    let next = v.session.columns.len() as usize;
    let (gss, active) = shifted(mid.gss, targets, next, v.session.generation, product);
    &&& token_ready(v, mid, token, product)
    &&& active.len() > 0
    &&& w == (StackView {
        gss,
        session: with_column(
            mid.session,
            ColumnView {
                products: seq![product],
                ..fresh_column(Some(token.column), active)
            },
        ),
        ..mid
    })
}

/// Shifts only add to the stacks.
proof fn lemma_shifted_grows(
    gss: GssView,
    targets: Seq<ShiftTarget>,
    column: usize,
    generation: u32,
    product: ProductId,
)
    ensures
        gss.nodes.is_prefix_of(shifted(gss, targets, column, generation, product).0.nodes),
        gss.edges.is_prefix_of(shifted(gss, targets, column, generation, product).0.edges),
    decreases targets.len(),
{
    let whole = shifted(gss, targets, column, generation, product).0;
    if targets.len() == 0 {
        assert(gss.nodes =~= whole.nodes.subrange(0, gss.nodes.len() as int));
        assert(gss.edges =~= whole.edges.subrange(0, gss.edges.len() as int));
    } else {
        lemma_shifted_grows(gss, targets.drop_last(), column, generation, product);
        let before = shifted(gss, targets.drop_last(), column, generation, product).0;
        assert forall|i: int| 0 <= i < gss.nodes.len() implies gss.nodes[i] == whole.nodes[i] by {
            assert(gss.nodes[i] == before.nodes.subrange(0, gss.nodes.len() as int)[i]);
        }
        assert forall|i: int| 0 <= i < gss.edges.len() implies gss.edges[i] == whole.edges[i] by {
            assert(gss.edges[i] == before.edges.subrange(0, gss.edges.len() as int)[i]);
        }
        assert(gss.nodes =~= whole.nodes.subrange(0, gss.nodes.len() as int));
        assert(gss.edges =~= whole.edges.subrange(0, gss.edges.len() as int));
    }
}

/// Nothing of a session changed but which tokens have products.
pub open spec fn same_but_products(v: StackView, w: StackView) -> bool {
    w.session == (SessionView { token_products: w.session.token_products, ..v.session })
}

impl<V> SessionContext<V> {
    /// The shifts from the nodes of a column.
    pub fn shift_targets(&self, parser: &Parser, column: usize, terminal: TerminalId) -> (r: Result<
        Vec<ShiftTarget>,
        ParseError,
    >)
        requires
            self.wf(*parser),
            column < self.state.columns@.len(),
            terminal < parser.grammar.terminals,
        ensures
            match r {
                Ok(targets) => nodes_there(
                    self@.gss,
                    self@.session.columns[column as int].active,
                ) && targets@ == shifts_from(
                    *parser,
                    self@.gss,
                    self@.session.columns[column as int].active,
                    terminal,
                ) && targets_fit(targets@, parser.states@.len()),
                Err(error) => error matches ParseError::MissingGssNode { node } && node
                    >= self@.gss.nodes.len() && self@.session.columns[column as int].active.contains(
                    node,
                ),
            },
    {
        let ghost gss = self@.gss;
        assert(self@.session.columns[column as int] == self.state.columns@[column as int]@);
        let active = self.state.columns[column].active_nodes();
        let mut out: Vec<ShiftTarget> = Vec::new();
        let mut at: usize = 0;
        while at < active.len()
            invariant
                self.wf(*parser),
                gss == self@.gss,
                terminal < parser.grammar.terminals,
                at <= active@.len(),
                active@ == self@.session.columns[column as int].active,
                nodes_there(gss, active@.take(at as int)),
                out@ == shifts_from(*parser, gss, active@.take(at as int), terminal),
                targets_fit(out@, parser.states@.len()),
            decreases active@.len() - at,
        {
            let node: usize = active[at];
            let state: usize = match self.arenas.gss.get_node(node) {
                Some(found) => found.state,
                None => {
                    assert(active@.contains(active@[at as int]));
                    return Err(ParseError::MissingGssNode { node });
                },
            };
            proof {
                assert(gss.nodes[node as int].state == state);
                let next = active@.take(at as int + 1);
                assert(next.drop_last() =~= active@.take(at as int));
                assert(next.last() == node);
                assert(nodes_there(gss, next)) by {
                    assert forall|i: int| 0 <= i < next.len() implies (#[trigger] next[i])
                        < gss.nodes.len() by {
                        if i < at {
                            assert(next[i] == active@.take(at as int)[i]);
                        }
                    }
                }
            }
            let actions = parser.action_set(state, terminal);
            let ghost list = parser.actions_at(state, terminal);
            let ghost start = out@;
            let total: usize = actions.len();
            let mut a: usize = 0;
            assert(start + shifts_in(node, list.take(0)) =~= start);
            while a < total
                invariant
                    a <= total,
                    total == list.len(),
                    list == action_items(*actions),
                    list == parser.actions_at(state, terminal),
                    parser.wf(),
                    state < parser.states@.len(),
                    terminal < parser.grammar.terminals,
                    out@ == start + shifts_in(node, list.take(a as int)),
                    targets_fit(out@, parser.states@.len()),
                decreases total - a,
            {
                let ghost before = out@;
                assert(list.take(a as int + 1).drop_last() =~= list.take(a as int));
                let action = actions.at(a);
                if let Action::Shift(to) = action {
                    proof {
                        assert(list[a as int] == action);
                        assert(list.contains(action));
                        lemma_shift_fits(*parser, state, terminal, to);
                    }
                    out.push(ShiftTarget { node, state: to });
                    assert(targets_fit(out@, parser.states@.len())) by {
                        assert forall|i: int| 0 <= i < out@.len() implies (#[trigger] out@[i]).state
                            < parser.states@.len() by {
                            if i < before.len() {
                                assert(out@[i] == before[i]);
                            }
                        }
                    }
                }
                assert(out@ =~= start + shifts_in(node, list.take(a as int + 1)));
                a += 1;
            }
            assert(list.take(a as int) =~= list);
            at += 1;
        }
        assert(active@.take(at as int) =~= active@);
        Ok(out)
    }

    /// Adds the edges of shifts; returns the nodes on top of new ones.
    fn push_shifts(
        &mut self,
        parser: &Parser,
        targets: &Vec<ShiftTarget>,
        column: usize,
        product: ProductId,
    ) -> (r: indexmap::IndexSet<usize>)
        requires
            old(self).wf(*parser),
            targets_fit(targets@, parser.states@.len()),
        ensures
            final(self).wf(*parser),
            final(self).state == old(self).state,
            final(self).arenas.trees == old(self).arenas.trees,
            final(self).arenas.products == old(self).arenas.products,
            final(self).arenas.ast == old(self).arenas.ast,
            (final(self)@.gss, node_items(r)) == shifted(
                old(self)@.gss,
                targets@,
                column,
                old(self)@.session.generation,
                product,
            ),
            grown(old(self)@, final(self)@),
    {
        let ghost gss0 = self@.gss;
        let generation: u32 = self.state.generation;
        let count: usize = parser.states.len();
        let mut active = node_set_new();
        let mut at: usize = 0;
        assert(targets@.take(0) =~= Seq::<ShiftTarget>::empty());
        while at < targets.len()
            invariant
                at <= targets@.len(),
                count == parser.states@.len(),
                self.wf(*parser),
                self.state == old(self).state,
                self.arenas.trees == old(self).arenas.trees,
                self.arenas.products == old(self).arenas.products,
                self.arenas.ast == old(self).arenas.ast,
                targets_fit(targets@, parser.states@.len()),
                generation == self.state.generation,
                (self@.gss, node_items(active)) == shifted(
                    gss0,
                    targets@.take(at as int),
                    column,
                    generation,
                    product,
                ),
            decreases targets@.len() - at,
        {
            let target = targets[at];
            let ghost before = self@.gss;
            proof {
                assert(targets@.take(at as int + 1).drop_last() =~= targets@.take(at as int));
                assert(targets@.take(at as int + 1).last() == target);
                assert(targets@[at as int].state < parser.states@.len());
            }
            let ghost node = GssNode { state: target.state, column, generation };
            let id: usize = self.arenas.gss.node(target.state, column, generation);
            proof {
                self.arenas.gss.lemma_wf();
                let nodes = self.arenas.gss@.nodes;
                let found = nodes.index_of(node);
                assert(nodes.contains(nodes[id as int]));
                assert(nodes[found] == node);
                assert(found == id);
            }
            if self.arenas.gss.add_edge(id, target.node, product, generation) {
                node_set_insert(&mut active, id);
            }
            proof {
                let after = self@.gss;
                assert(after.nodes == with_node(before, node).nodes);
                assert(states_fit(after, parser.states@.len())) by {
                    assert forall|i: int| 0 <= i < after.nodes.len() implies (
                    #[trigger] after.nodes[i]).state < parser.states@.len() by {
                        if i < before.nodes.len() {
                            assert(after.nodes[i] == before.nodes[i]);
                        }
                    }
                }
            }
            at += 1;
        }
        assert(targets@.take(at as int) =~= targets@);
        proof {
            lemma_shifted_grows(gss0, targets@, column, generation, product);
            lemma_grown_stacks(old(self)@, self@);
        }
        active
    }

    /// Adds a column behind an error and notes the error.
    fn push_error_column(
        &mut self,
        parser: &Parser,
        token: Option<TokenOccurrenceId>,
        active: indexmap::IndexSet<usize>,
        product: ProductId,
        info: ParseErrorInfo,
    )
        requires
            old(self).wf(*parser),
        ensures
            final(self).wf(*parser),
            final(self).arenas == old(self).arenas,
            final(self).state.kept_from(old(self).state),
            final(self)@ == with_error_column(
                old(self)@,
                error_column(token, node_items(active), product),
                info,
            ),
    {
        let ghost v = self@;
        let mut column = ParseColumn::new(token, active);
        column.push_product(product);
        column.set_error_derived();
        let ghost said = column@;
        proof {
            assert(said.products =~= seq![product]);
            assert(said =~= error_column(token, node_items(active), product));
        }
        self.state.append_column(column);
        self.state.note_diagnostic(info);
        assert(self@ =~= with_error_column(v, said, info));
    }

    /// The product of a token, made where it is not known.
    fn ready_token(&mut self, parser: &Parser, token: &ParseToken) -> (r: ProductId)
        requires
            old(self).wf(*parser),
        ensures
            final(self).wf(*parser),
            final(self).state.kept_from(old(self).state),
            token_ready(old(self)@, final(self)@, *token, r),
            final(self)@.session.columns == old(self)@.session.columns,
            final(self)@.session.generation == old(self)@.session.generation,
            final(self)@.gss == old(self)@.gss,
            final(self).arenas.ast == old(self).arenas.ast,
            same_but_products(old(self)@, final(self)@),
            grown(old(self)@, final(self)@),
    {
        let ghost v = self@;
        proof {
            lemma_grown_self(v);
        }
        if let Some(product) = self.state.token_product(token.column) {
            return product;
        }
        let product: usize = self.alloc_token(
            parser,
            token.length,
            token.terminal,
            token.entry,
            token.column,
        );
        let ghost mid = self@;
        self.state.token_products.insert(token.column.0, product);
        proof {
            let w = self@;
            assert(w =~= (StackView {
                session: SessionView {
                    token_products: v.session.token_products.insert(token.column.0, product),
                    ..mid.session
                },
                ..mid
            }));
            lemma_grown_product(
                v,
                mid,
                TreeView { length: token.length, data: DataView::Leaf { id: token.terminal } },
                ProductDataView::Token { entry: token.entry, ast: None },
                AnchoredSpan {
                    start: anchor_place(token.column),
                    end: anchor_place(token.column),
                    end_at_token_end: true,
                },
            );
            lemma_grown_same(mid, w);
            lemma_grown_trans(v, mid, w);
        }
        product
    }

    /// Takes a token: every stack that can shift it grows. A token that stands
    /// for an error is noted, and what it completes is reduced.
    pub fn shift_parse_token<L: Language<V>>(
        &mut self,
        parser: &Parser,
        language: &L,
        from_column: usize,
        token: &ParseToken,
    ) -> (r: Result<usize, ParseError>)
        requires
            old(self).wf(*parser),
            from_column + 1 == old(self).state.columns@.len(),
            token.terminal < parser.grammar.terminals,
        ensures
            final(self).wf(*parser),
            final(self).state.recovery == old(self).state.recovery,
            built_on(*language, *old(self), *final(self)),
            extends_columns(
                old(self)@.session,
                final(self)@.session,
                old(self)@.session.columns.len() as int,
            ),
            r is Ok ==> final(self)@.session.columns.len() == old(self)@.session.columns.len() + 1,
            token.terminal != parser.grammar.error_terminal ==> match r {
                Ok(next) => {
                    let targets = shifts_from(
                        *parser,
                        old(self)@.gss,
                        old(self)@.session.columns[from_column as int].active,
                        token.terminal,
                    );
                    &&& next == from_column + 1
                    &&& exists|mid: StackView, product: ProductId| #[trigger]
                        token_taken(old(self)@, final(self)@, *token, targets, mid, product)
                },
                Err(error) => {
                    &&& same_but_products(old(self)@, final(self)@)
                    &&& shift_refused(*parser, old(self)@, *token, error)
                    &&& error is MissingGssNode ==> final(self)@ == old(self)@
                },
            },
            token.terminal == parser.grammar.error_terminal ==> match r {
                Ok(next) => {
                    let targets = shifts_from(
                        *parser,
                        old(self)@.gss,
                        old(self)@.session.columns[from_column as int].active,
                        token.terminal,
                    );
                    let info = unexpected_info(
                        *parser,
                        token.length,
                        as_symbol(token.merge_source_terminal),
                        next,
                    );
                    let gap = Gap {
                        column: next as int,
                        lookahead: parser.grammar.error_terminal,
                        boundary: token.column,
                    };
                    &&& next == from_column + 1
                    &&& stable(*parser, gap, final(self)@)
                    &&& exists|mid: StackView| #[trigger]
                        error_taken(*parser, old(self)@, mid, *token, targets, info) && reduces_to(
                            *parser,
                            gap,
                            mid,
                            final(self)@,
                        )
                },
                Err(error) => {
                    ||| {
                        &&& same_but_products(old(self)@, final(self)@)
                        &&& shift_refused(*parser, old(self)@, *token, error)
                        &&& error is MissingGssNode ==> final(self)@ == old(self)@
                    }
                    ||| {
                        &&& error_shifted(*parser, old(self)@, final(self)@, *token)
                        &&& reduce_failed(*parser, *language, *final(self), error)
                    }
                },
            },
            r is Err ==> r->Err_0 is NoActiveStacks || reduce_failed(
                *parser,
                *language,
                *final(self),
                r->Err_0,
            ),
    {
        let ghost v = self@;
        let ghost whole = *self;
        proof {
            lemma_built_same(*language, whole, whole);
            lemma_prefix_self(v.session.diagnostics);
        }
        let next: usize = self.state.columns.len();
        assert(v.session.columns.len() == next);
        let targets = match self.shift_targets(parser, from_column, token.terminal) {
            Ok(targets) => targets,
            Err(error) => {
                return Err(error);
            },
        };
        let is_error_token = token.terminal == parser.grammar.error_terminal;
        if is_error_token {
            let info = ParseErrorInfo {
                kind: ErrorKind::UnexpectedToken,
                node: parser.grammar.error_non_terminal,
                length: token.length,
                unexpected: match token.merge_source_terminal {
                    Some(terminal) => Some(Symbol::T(terminal)),
                    None => None,
                },
                expected: Symbol::T(parser.grammar.error_terminal),
                recovered: true,
                location: Some(next),
            };
            let product: usize = self.alloc_error_node(parser, info, token.column);
            let ghost made = self@;
            let active = self.push_shifts(parser, &targets, next, product);
            let ghost pushed = self@;
            proof {
                assert(pushed =~= (StackView { gss: pushed.gss, ..made }));
                lemma_grown_product(
                    v,
                    made,
                    error_tree(info),
                    ProductDataView::Error { children: Seq::empty() },
                    error_extent(info.length, token.column),
                );
                lemma_grown_trans(v, made, pushed);
                lemma_built_grown(*language, whole, *self);
            }
            if node_set_len(&active) == 0 {
                assert(grown_tops(*parser, v, token.terminal, product) =~= Seq::empty());
                return Err(ParseError::NoActiveStacks { column: Some(token.column.0) });
            }
            let ghost tops = node_items(active);
            let ghost grown_to = *self;
            self.push_error_column(parser, Some(token.column), active, product, info);
            let ghost mid = self@;
            let ghost ready = *self;
            proof {
                lemma_built_same(*language, grown_to, ready);
                lemma_built_trans(*language, whole, grown_to, ready);
                lemma_prefix_push(v.session.diagnostics, info);
            }
            assert(mid.session.columns.len() == self.state.columns@.len());
            proof {
                assert(error_taken_over(*parser, v, mid, *token, targets@, info, made, product)) by {
                    assert(shifted(made.gss, targets@, next, v.session.generation, product) == (
                        pushed.gss,
                        tops,
                    ));
                    assert(mid =~= with_error_column(
                        StackView { gss: pushed.gss, ..made },
                        error_column(Some(token.column), tops, product),
                        info,
                    ));
                }
                assert(error_taken(*parser, v, mid, *token, targets@, info));
                lemma_error_column_len(
                    StackView { gss: pushed.gss, ..made },
                    error_column(Some(token.column), tops, product),
                    info,
                );
            }
            match self.reduce_until_stable(
                parser,
                language,
                next,
                parser.grammar.error_terminal,
                token.column,
            ) {
                Ok(_) => {
                    proof {
                        lemma_built_trans(*language, whole, ready, *self);
                        let gap = Gap {
                            column: next as int,
                            lookahead: parser.grammar.error_terminal,
                            boundary: token.column,
                        };
                        let steps = choose|steps: nat| #[trigger]
                            crate::framework::parse::parsing::reduce::derived(
                                *parser,
                                gap,
                                mid,
                                self@,
                                steps,
                            );
                        crate::framework::parse::parsing::reduce::lemma_reductions_keep(
                            *parser,
                            gap,
                            mid,
                            self@,
                            steps,
                        );
                        assert(self@.session.columns.len() == self.state.columns@.len());
                    }
                    Ok(next)
                },
                Err(error) => {
                    proof {
                        lemma_built_trans(*language, whole, ready, *self);
                        let gap = Gap {
                            column: next as int,
                            lookahead: parser.grammar.error_terminal,
                            boundary: token.column,
                        };
                        let steps = choose|steps: nat| #[trigger]
                            crate::framework::parse::parsing::reduce::derived(
                                *parser,
                                gap,
                                mid,
                                self@,
                                steps,
                            );
                        crate::framework::parse::parsing::reduce::lemma_reductions_keep(
                            *parser,
                            gap,
                            mid,
                            self@,
                            steps,
                        );
                        assert(self@.session.columns.len() == self.state.columns@.len());
                        assert(error_shifted(*parser, v, self@, *token));
                    }
                    Err(error)
                },
            }
        } else {
            if targets.len() == 0 {
                assert(grown_tops(*parser, v, token.terminal, 0) =~= Seq::empty());
                return Err(ParseError::NoActiveStacks { column: Some(token.column.0) });
            }
            let product: usize = self.ready_token(parser, token);
            let ghost mid = self@;
            let active = self.push_shifts(parser, &targets, next, product);
            let ghost pushed = self@;
            let ghost grown_to = *self;
            proof {
                assert(pushed =~= (StackView { gss: pushed.gss, ..mid }));
                lemma_grown_trans(v, mid, pushed);
                lemma_built_grown(*language, whole, *self);
            }
            if node_set_len(&active) == 0 {
                assert(grown_tops(*parser, v, token.terminal, product) =~= Seq::empty());
                return Err(ParseError::NoActiveStacks { column: Some(token.column.0) });
            }
            let ghost tops = node_items(active);
            let mut column = ParseColumn::new(Some(token.column), active);
            column.push_product(product);
            let ghost said = column@;
            proof {
                assert(said.products =~= seq![product]);
                assert(said =~= (ColumnView {
                    products: seq![product],
                    ..fresh_column(Some(token.column), tops)
                }));
            }
            self.state.append_column(column);
            proof {
                assert(self@.session.columns.len() == self.state.columns@.len());
                assert(self@ =~= (StackView {
                    gss: pushed.gss,
                    session: with_column(mid.session, said),
                    ..mid
                }));
                assert(token_taken(v, self@, *token, targets@, mid, product));
                lemma_built_same(*language, grown_to, *self);
                lemma_built_trans(*language, whole, grown_to, *self);
            }
            Ok(next)
        }
    }

    /// Makes a terminal up: every stack that can shift it grows, and what it
    /// completes is reduced.
    pub fn shift_synthetic_terminal<L: Language<V>>(
        &mut self,
        parser: &Parser,
        language: &L,
        from_column: usize,
        terminal: TerminalId,
        unexpected: Option<Symbol>,
        location: Option<TokenOccurrenceId>,
    ) -> (r: Result<usize, ParseError>)
        requires
            old(self).wf(*parser),
            from_column + 1 == old(self).state.columns@.len(),
            terminal < parser.grammar.terminals,
        ensures
            final(self).wf(*parser),
            final(self).state.recovery == old(self).state.recovery,
            built_on(*language, *old(self), *final(self)),
            extends_columns(
                old(self)@.session,
                final(self)@.session,
                old(self)@.session.columns.len() as int,
            ),
            r is Ok ==> final(self)@.session.columns.len() == old(self)@.session.columns.len() + 1,
            match r {
                Ok(next) => {
                    let targets = shifts_from(
                        *parser,
                        old(self)@.gss,
                        old(self)@.session.columns[from_column as int].active,
                        terminal,
                    );
                    let info = missing_info(*parser, terminal, unexpected, next);
                    let anchor = anchor_or_end(location);
                    let gap = Gap { column: next as int, lookahead: terminal, boundary: anchor };
                    &&& next == from_column + 1
                    &&& stable(*parser, gap, final(self)@)
                    &&& exists|mid: StackView| #[trigger]
                        error_pushed(
                            old(self)@,
                            mid,
                            None,
                            targets,
                            info,
                            anchor,
                        ) && reduces_to(*parser, gap, mid, final(self)@)
                },
                Err(error) => reduce_failed(*parser, *language, *final(self), error) || (error == (
                ParseError::NoActiveStacks { column: None }) && final(self)@.session == old(
                    self,
                )@.session && no_shift(
                    *parser,
                    old(self)@,
                    terminal,
                )),
            },
    {
        let ghost v = self@;
        let ghost whole = *self;
        proof {
            lemma_built_same(*language, whole, whole);
            lemma_prefix_self(v.session.diagnostics);
        }
        let next: usize = self.state.columns.len();
        assert(v.session.columns.len() == next);
        let anchor = match location {
            Some(token) => token,
            None => TokenOccurrenceId(u64::MAX),
        };
        let targets = match self.shift_targets(parser, from_column, terminal) {
            Ok(targets) => targets,
            Err(error) => {
                return Err(error);
            },
        };
        let info = ParseErrorInfo {
            kind: ErrorKind::MissingToken,
            node: parser.grammar.error_non_terminal,
            length: 0,
            unexpected,
            expected: Symbol::T(terminal),
            recovered: true,
            location: Some(next),
        };
        let product: usize = self.alloc_error_node(parser, info, anchor);
        let ghost made = self@;
        let active = self.push_shifts(parser, &targets, next, product);
        let ghost pushed = self@;
        proof {
            assert(pushed =~= (StackView { gss: pushed.gss, ..made }));
            lemma_grown_product(
                v,
                made,
                error_tree(info),
                ProductDataView::Error { children: Seq::empty() },
                error_extent(info.length, anchor),
            );
            lemma_grown_trans(v, made, pushed);
            lemma_built_grown(*language, whole, *self);
        }
        if node_set_len(&active) == 0 {
            assert(grown_tops(*parser, v, terminal, product) =~= Seq::empty());
            return Err(ParseError::NoActiveStacks { column: None });
        }
        let ghost tops = node_items(active);
        let ghost grown_to = *self;
        self.push_error_column(parser, None, active, product, info);
        let ghost mid = self@;
        let ghost ready = *self;
        proof {
            lemma_built_same(*language, grown_to, ready);
            lemma_built_trans(*language, whole, grown_to, ready);
            lemma_prefix_push(v.session.diagnostics, info);
        }
        assert(mid.session.columns.len() == self.state.columns@.len());
        proof {
            assert(mid =~= with_error_column(
                StackView { gss: pushed.gss, ..made },
                error_column(None, tops, product),
                info,
            ));
            assert(error_pushed_over(v, mid, None, targets@, info, anchor, made, product));
            assert(error_pushed(v, mid, None, targets@, info, anchor));
            lemma_error_column_len(
                StackView { gss: pushed.gss, ..made },
                error_column(None, tops, product),
                info,
            );
        }
        let ghost gap = Gap { column: next as int, lookahead: terminal, boundary: anchor };
        let result = self.reduce_until_stable(parser, language, next, terminal, anchor);
        proof {
            lemma_built_trans(*language, whole, ready, *self);
            let steps = choose|steps: nat| #[trigger]
                crate::framework::parse::parsing::reduce::derived(*parser, gap, mid, self@, steps);
            crate::framework::parse::parsing::reduce::lemma_reductions_keep(
                *parser,
                gap,
                mid,
                self@,
                steps,
            );
            assert(self@.session.columns.len() == self.state.columns@.len());
        }
        match result {
            Ok(_) => Ok(next),
            Err(error) => Err(error),
        }
    }

    /// Drops a token: the stacks stay as they are, and the token is noted as an
    /// error.
    pub fn delete_parse_token<L: Language<V>>(
        &mut self,
        parser: &Parser,
        language: &L,
        from_column: usize,
        token: &ParseToken,
    ) -> (r: Result<usize, ParseError>)
        requires
            old(self).wf(*parser),
            from_column + 1 == old(self).state.columns@.len(),
            parser.grammar.error_terminal < parser.grammar.terminals,
        ensures
            final(self).wf(*parser),
            final(self).state.recovery == old(self).state.recovery,
            built_on(*language, *old(self), *final(self)),
            final(self).state.columns@.len() == old(self).state.columns@.len() + 1,
            extends_columns(
                old(self)@.session,
                final(self)@.session,
                old(self)@.session.columns.len() as int,
            ),
            ({
                let next = (from_column + 1) as usize;
                let info = unexpected_info(
                    *parser,
                    token.length,
                    Some(Symbol::T(token.terminal)),
                    next,
                );
                let gap = Gap {
                    column: next as int,
                    lookahead: parser.grammar.error_terminal,
                    boundary: token.column,
                };
                &&& exists|mid: StackView| #[trigger]
                    token_dropped(old(self)@, mid, *token, info) && reduces_to(
                        *parser,
                        gap,
                        mid,
                        final(self)@,
                    )
                &&& match r {
                    Ok(found) => found == next && stable(*parser, gap, final(self)@),
                    Err(error) => reduce_failed(*parser, *language, *final(self), error),
                }
            }),
    {
        let ghost v = self@;
        let ghost whole = *self;
        let next: usize = self.state.columns.len();
        assert(v.session.columns.len() == next);
        let info = ParseErrorInfo {
            kind: ErrorKind::UnexpectedToken,
            node: parser.grammar.error_non_terminal,
            length: token.length,
            unexpected: Some(Symbol::T(token.terminal)),
            expected: Symbol::T(parser.grammar.error_terminal),
            recovered: true,
            location: Some(next),
        };
        let product: usize = self.alloc_error_node(parser, info, token.column);
        let ghost made = self@;
        let ghost grown_to = *self;
        proof {
            lemma_grown_product(
                v,
                made,
                error_tree(info),
                ProductDataView::Error { children: Seq::empty() },
                error_extent(info.length, token.column),
            );
            lemma_built_grown(*language, whole, *self);
        }
        assert(made.session.columns[from_column as int]
            == self.state.columns@[from_column as int]@);
        let active = crate::collections::node_set_clone(&self.state.columns[from_column].active);
        let ghost tops = node_items(active);
        self.push_error_column(parser, Some(token.column), active, product, info);
        let ghost mid = self@;
        let ghost ready = *self;
        proof {
            lemma_built_same(*language, grown_to, ready);
            lemma_built_trans(*language, whole, grown_to, ready);
            lemma_prefix_push(v.session.diagnostics, info);
        }
        assert(mid.session.columns.len() == self.state.columns@.len());
        proof {
            assert(token_dropped_over(v, mid, *token, info, made, product));
            assert(token_dropped(v, mid, *token, info));
            lemma_error_column_len(made, error_column(Some(token.column), tops, product), info);
        }
        let ghost gap = Gap {
            column: next as int,
            lookahead: parser.grammar.error_terminal,
            boundary: token.column,
        };
        let result = self.reduce_until_stable(
            parser,
            language,
            next,
            parser.grammar.error_terminal,
            token.column,
        );
        proof {
            lemma_built_trans(*language, whole, ready, *self);
            let steps = choose|steps: nat| #[trigger]
                crate::framework::parse::parsing::reduce::derived(*parser, gap, mid, self@, steps);
            crate::framework::parse::parsing::reduce::lemma_reductions_keep(
                *parser,
                gap,
                mid,
                self@,
                steps,
            );
            assert(self@.session.columns.len() == self.state.columns@.len());
        }
        match result {
            Ok(_) => Ok(next),
            Err(error) => Err(error),
        }
    }
}

/// A token, or the end.
pub open spec fn anchor_or_end(location: Option<TokenOccurrenceId>) -> TokenOccurrenceId {
    match location {
        Some(token) => token,
        None => TokenOccurrenceId(u64::MAX),
    }
}

/// The product of an error was made, and the stacks grew over it.
pub open spec fn error_pushed_over(
    v: StackView,
    w: StackView,
    token: Option<TokenOccurrenceId>,
    targets: Seq<ShiftTarget>,
    info: ParseErrorInfo,
    anchor: TokenOccurrenceId,
    made: StackView,
    product: ProductId,
) -> bool {
    let next = v.session.columns.len() as usize;
    let (gss, active) = shifted(made.gss, targets, next, v.session.generation, product);
    &&& product == v.products.len()
    &&& with_product(
        v,
        made,
        error_tree(info),
        ProductDataView::Error { children: Seq::empty() },
        error_extent(info.length, anchor),
    )
    &&& active.len() > 0
    &&& w == with_error_column(
        StackView { gss, ..made },
        error_column(token, active, product),
        info,
    )
}

/// The stacks grew over an error.
pub open spec fn error_pushed(
    v: StackView,
    w: StackView,
    token: Option<TokenOccurrenceId>,
    targets: Seq<ShiftTarget>,
    info: ParseErrorInfo,
    anchor: TokenOccurrenceId,
) -> bool {
    exists|made: StackView, product: ProductId| #[trigger]
        error_pushed_over(v, w, token, targets, info, anchor, made, product)
}

/// A token was taken for an error.
pub open spec fn error_taken_over(
    parser: Parser,
    v: StackView,
    w: StackView,
    token: ParseToken,
    targets: Seq<ShiftTarget>,
    info: ParseErrorInfo,
    made: StackView,
    product: ProductId,
) -> bool {
    error_pushed_over(v, w, Some(token.column), targets, info, token.column, made, product)
}

/// A token was taken for an error.
pub open spec fn error_taken(
    parser: Parser,
    v: StackView,
    w: StackView,
    token: ParseToken,
    targets: Seq<ShiftTarget>,
    info: ParseErrorInfo,
) -> bool {
    exists|made: StackView, product: ProductId| #[trigger]
        error_taken_over(parser, v, w, token, targets, info, made, product)
}

/// The tops of the stacks that shift a terminal, where `product` stands for it.
pub open spec fn grown_tops(
    parser: Parser,
    v: StackView,
    terminal: TerminalId,
    product: ProductId,
) -> Seq<GssNodeId> {
    shifted(
        v.gss,
        shifts_from(parser, v.gss, v.session.columns.last().active, terminal),
        v.session.columns.len() as usize,
        v.session.generation,
        product,
    ).1
}

/// No stack can shift a terminal.
pub open spec fn no_shift(parser: Parser, v: StackView, terminal: TerminalId) -> bool {
    exists|product: ProductId| (#[trigger] grown_tops(parser, v, terminal, product)).len() == 0
}

/// Why a token was not shifted: no stack can, or a node of the stacks is
/// missing.
pub open spec fn shift_refused(
    parser: Parser,
    v: StackView,
    token: ParseToken,
    error: ParseError,
) -> bool {
    match error {
        ParseError::NoActiveStacks { column } => column == Some(token.column.0) && no_shift(
            parser,
            v,
            token.terminal,
        ),
        ParseError::MissingGssNode { node } => node >= v.gss.nodes.len()
            && v.session.columns.last().active.contains(node),
        _ => false,
    }
}

/// A token was taken for an error, and some of what it completes was reduced.
pub open spec fn error_shifted(
    parser: Parser,
    v: StackView,
    w: StackView,
    token: ParseToken,
) -> bool {
    let next = v.session.columns.len() as usize;
    let targets = shifts_from(parser, v.gss, v.session.columns.last().active, token.terminal);
    let gap = Gap {
        column: next as int,
        lookahead: parser.grammar.error_terminal,
        boundary: token.column,
    };
    let info = unexpected_info(
        parser,
        token.length,
        as_symbol(token.merge_source_terminal),
        next,
    );
    exists|mid: StackView| #[trigger]
        error_taken(parser, v, mid, token, targets, info) && reduces_to(parser, gap, mid, w)
}

/// The product of a dropped token was made; the stacks stay.
pub open spec fn token_dropped_over(
    v: StackView,
    w: StackView,
    token: ParseToken,
    info: ParseErrorInfo,
    made: StackView,
    product: ProductId,
) -> bool {
    &&& product == v.products.len()
    &&& with_product(
        v,
        made,
        error_tree(info),
        ProductDataView::Error { children: Seq::empty() },
        error_extent(info.length, token.column),
    )
    &&& w == with_error_column(
        made,
        error_column(
            Some(token.column),
            v.session.columns[v.session.columns.len() - 1].active,
            product,
        ),
        info,
    )
}

/// A token was dropped.
pub open spec fn token_dropped(
    v: StackView,
    w: StackView,
    token: ParseToken,
    info: ParseErrorInfo,
) -> bool {
    exists|made: StackView, product: ProductId| #[trigger]
        token_dropped_over(v, w, token, info, made, product)
}

proof fn lemma_error_column_len(v: StackView, column: ColumnView, info: ParseErrorInfo)
    ensures
        with_error_column(v, column, info).session.columns == v.session.columns.push(column),
{
}

} // verus!
