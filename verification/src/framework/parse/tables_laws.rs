//! What the tables of a parser say of its grammar.

use vstd::prelude::*;

use crate::collections::{has_entry, map_entries, Triple};
use crate::framework::parse::grammar::{Grammar, NonTerminalId, ProductionId, Symbol, TerminalId};
use crate::framework::parse::tables::{
    action_items, actions_of, all_items, arrives, called_within, calls_for, conflict_views,
    conflicts_at, conflicts_in_row, conflicts_until, due, goto_of, in_closure, is_closure, is_item,
    key_symbol, leads, move_key, moved_items, moves_on, next_symbols, reduces_in, shift_in,
    shifts_of, symbol_at, triples, with_action, with_due, Action, ActionSet, ConflictView, LR1Item,
    LRStateId, Parser,
};

verus! {

// ---------------------------------------------------------------------------
// What symbols can begin with

/// A symbol can stand for nothing.
pub open spec fn vanishes(g: Grammar, symbol: Symbol) -> bool {
    match symbol {
        Symbol::T(_) => false,
        Symbol::N(id) => g.nullable@[id as int],
        Symbol::Epsilon => true,
    }
}

/// What a list of symbols, followed by a terminal, can begin with: the terminals
/// that a symbol begins with where all symbols before it can stand for nothing,
/// and the terminal behind them where all of them can.
pub proof fn lemma_begins(g: Grammar, symbols: Seq<Symbol>, lookahead: TerminalId, t: TerminalId)
    requires
        lookahead < g.terminals,
        forall|i: int|
            0 <= i < symbols.len() ==> (#[trigger] symbols[i] matches Symbol::T(id) ==> id
                < g.terminals),
    ensures
        g.begins(symbols, lookahead).contains(t) <==> {
            ||| t == lookahead && forall|i: int|
                0 <= i < symbols.len() ==> vanishes(g, #[trigger] symbols[i])
            ||| exists|k: int|
                {
                    &&& 0 <= k < symbols.len()
                    &&& match #[trigger] symbols[k] {
                        Symbol::T(id) => id == t,
                        Symbol::N(id) => t < g.terminals && g.first@[id as int]@[t as int],
                        Symbol::Epsilon => false,
                    }
                    &&& forall|i: int| 0 <= i < k ==> vanishes(g, #[trigger] symbols[i])
                }
        },
    decreases symbols.len(),
{
    if symbols.len() > 0 {
        let rest = symbols.drop_first();
        assert forall|i: int| 0 <= i < rest.len() implies (#[trigger] rest[i] matches Symbol::T(
            id,
        ) ==> id < g.terminals) by {
            assert(rest[i] == symbols[i + 1]);
        }
        lemma_begins(g, rest, lookahead, t);
        let gone = forall|i: int| 0 <= i < symbols.len() ==> vanishes(g, #[trigger] symbols[i]);
        let gone_rest = forall|i: int| 0 <= i < rest.len() ==> vanishes(g, #[trigger] rest[i]);
        let found = exists|k: int|
            {
                &&& 0 <= k < symbols.len()
                &&& match #[trigger] symbols[k] {
                    Symbol::T(id) => id == t,
                    Symbol::N(id) => t < g.terminals && g.first@[id as int]@[t as int],
                    Symbol::Epsilon => false,
                }
                &&& forall|i: int| 0 <= i < k ==> vanishes(g, #[trigger] symbols[i])
            };
        let found_rest = exists|k: int|
            {
                &&& 0 <= k < rest.len()
                &&& match #[trigger] rest[k] {
                    Symbol::T(id) => id == t,
                    Symbol::N(id) => t < g.terminals && g.first@[id as int]@[t as int],
                    Symbol::Epsilon => false,
                }
                &&& forall|i: int| 0 <= i < k ==> vanishes(g, #[trigger] rest[i])
            };
        let here = match symbols[0] {
            Symbol::T(id) => id == t,
            Symbol::N(id) => t < g.terminals && g.first@[id as int]@[t as int],
            Symbol::Epsilon => false,
        };
        assert(gone == (vanishes(g, symbols[0]) && gone_rest)) by {
            if gone {
                assert forall|i: int| 0 <= i < rest.len() implies vanishes(
                    g,
                    #[trigger] rest[i],
                ) by {
                    assert(vanishes(g, symbols[i + 1]));
                }
            }
            if vanishes(g, symbols[0]) && gone_rest {
                assert forall|i: int| 0 <= i < symbols.len() implies vanishes(
                    g,
                    #[trigger] symbols[i],
                ) by {
                    if i > 0 {
                        assert(vanishes(g, rest[i - 1]));
                    }
                }
            }
        }
        assert(found == (here || (vanishes(g, symbols[0]) && found_rest))) by {
            if found {
                let k = choose|k: int|
                    {
                        &&& 0 <= k < symbols.len()
                        &&& match #[trigger] symbols[k] {
                            Symbol::T(id) => id == t,
                            Symbol::N(id) => t < g.terminals && g.first@[id as int]@[t as int],
                            Symbol::Epsilon => false,
                        }
                        &&& forall|i: int| 0 <= i < k ==> vanishes(g, #[trigger] symbols[i])
                    };
                if k > 0 {
                    assert(vanishes(g, symbols[0]));
                    assert(rest[k - 1] == symbols[k]);
                    assert forall|i: int| 0 <= i < k - 1 implies vanishes(
                        g,
                        #[trigger] rest[i],
                    ) by {
                        assert(vanishes(g, symbols[i + 1]));
                    }
                }
            }
            if here {
                assert(symbols[0] == symbols[0]);
            }
            if vanishes(g, symbols[0]) && found_rest {
                let k = choose|k: int|
                    {
                        &&& 0 <= k < rest.len()
                        &&& match #[trigger] rest[k] {
                            Symbol::T(id) => id == t,
                            Symbol::N(id) => t < g.terminals && g.first@[id as int]@[t as int],
                            Symbol::Epsilon => false,
                        }
                        &&& forall|i: int| 0 <= i < k ==> vanishes(g, #[trigger] rest[i])
                    };
                assert(symbols[k + 1] == rest[k]);
                assert forall|i: int| 0 <= i < k + 1 implies vanishes(
                    g,
                    #[trigger] symbols[i],
                ) by {
                    if i > 0 {
                        assert(vanishes(g, rest[i - 1]));
                    }
                }
            }
        }
    }
}

// ---------------------------------------------------------------------------
// Item sets

/// An item stands before a symbol.
pub open spec fn stands_before(g: Grammar, item: LR1Item, symbol: Symbol) -> bool {
    &&& item.production < g.productions@.len()
    &&& item.dot < g.productions@[item.production as int].rhs_len
    &&& g.rhs_symbols@[g.productions@[item.production as int].rhs_start + item.dot] == symbol
}

/// An item with its place moved by one.
pub open spec fn stepped(item: LR1Item) -> LR1Item {
    LR1Item { production: item.production, dot: (item.dot + 1) as usize, lookahead: item.lookahead }
}

proof fn lemma_triples_hold(items: Seq<LR1Item>, item: LR1Item)
    ensures
        triples(items).contains(item.triple()) <==> items.contains(item),
{
    let list = triples(items);
    if items.contains(item) {
        let i = items.index_of(item);
        assert(list[i] == item.triple());
    }
    if list.contains(item.triple()) {
        let i = list.index_of(item.triple());
        assert(list[i] == items[i].triple());
        assert(items[i] == item);
    }
}

proof fn lemma_stands_before(g: Grammar, item: LR1Item, symbol: Symbol)
    requires
        g.wf(),
    ensures
        symbol_at(g, item.triple()) == Some(symbol) <==> stands_before(g, item, symbol),
{
    if item.production < g.productions@.len() {
        let found = g.productions@[item.production as int];
        assert(found.rhs_start + found.rhs_len <= g.rhs_symbols@.len());
        assert(g.rhs(item.production as int).len() == found.rhs_len);
        if item.dot < found.rhs_len {
            assert(g.rhs(item.production as int)[item.dot as int] == g.rhs_symbols@[found.rhs_start
                + item.dot]);
        }
    }
}

proof fn lemma_moved(g: Grammar, items: Seq<LR1Item>, symbol: Symbol, item: LR1Item)
    requires
        g.wf(),
        all_items(g, items),
    ensures
        moved_items(g, items, symbol).contains(item) <==> exists|i: int|
            0 <= i < items.len() && stands_before(g, #[trigger] items[i], symbol) && item
                == stepped(items[i]),
    decreases items.len(),
{
    if items.len() > 0 {
        let front = items.drop_last();
        let last = items.len() - 1;
        assert forall|i: int| 0 <= i < front.len() implies is_item(
            g,
            (#[trigger] front[i]).triple(),
        ) by {
            assert(front[i] == items[i]);
        }
        lemma_moved(g, front, symbol, item);
        lemma_stands_before(g, items[last], symbol);
        let before = moved_items(g, front, symbol);
        let all = moved_items(g, items, symbol);
        if all.contains(item) {
            let k = all.index_of(item);
            if k < before.len() {
                assert(before[k] == item);
                let i = choose|i: int|
                    0 <= i < front.len() && stands_before(g, #[trigger] front[i], symbol) && item
                        == stepped(front[i]);
                assert(items[i] == front[i]);
            } else {
                assert(stands_before(g, items[last], symbol));
            }
        }
        if exists|i: int|
            0 <= i < items.len() && stands_before(g, #[trigger] items[i], symbol) && item
                == stepped(items[i]) {
            let i = choose|i: int|
                0 <= i < items.len() && stands_before(g, #[trigger] items[i], symbol) && item
                    == stepped(items[i]);
            if i < last {
                assert(front[i] == items[i]);
                assert(before.contains(item));
                let k = before.index_of(item);
                assert(all[k] == item);
            } else {
                assert(all[before.len() as int] == item);
            }
        }
    }
}

proof fn lemma_next(g: Grammar, items: Seq<LR1Item>, symbol: Symbol)
    requires
        g.wf(),
    ensures
        next_symbols(g, items).contains(symbol) <==> exists|i: int|
            0 <= i < items.len() && stands_before(g, #[trigger] items[i], symbol),
    decreases items.len(),
{
    if items.len() > 0 {
        let front = items.drop_last();
        let last = items.len() - 1;
        lemma_next(g, front, symbol);
        lemma_stands_before(g, items[last], symbol);
        let before = next_symbols(g, front);
        let all = next_symbols(g, items);
        if all.contains(symbol) {
            let k = all.index_of(symbol);
            if k < before.len() {
                assert(before[k] == symbol);
                let i = choose|i: int|
                    0 <= i < front.len() && stands_before(g, #[trigger] front[i], symbol);
                assert(items[i] == front[i]);
            } else {
                assert(stands_before(g, items[last], symbol));
            }
        }
        if exists|i: int| 0 <= i < items.len() && stands_before(g, #[trigger] items[i], symbol) {
            let i = choose|i: int|
                0 <= i < items.len() && stands_before(g, #[trigger] items[i], symbol);
            if i < last {
                assert(front[i] == items[i]);
                let k = before.index_of(symbol);
                assert(all[k] == symbol);
            } else {
                assert(all[before.len() as int] == symbol);
            }
        }
    }
}

/// The items that a move over a symbol leads to, and those that a state starts
/// with: every state is closed.
proof fn lemma_state_seed(parser: Parser, state: int) -> (seed: Set<Triple>)
    requires
        parser.wf(),
        0 <= state < parser.states@.len(),
    ensures
        is_closure(parser.grammar, parser.states@[state].items@, seed),
        state == 0 ==> seed == set![(0usize, 0usize, parser.grammar.eof)],
        state > 0 ==> exists|from: usize, symbol: Symbol| #[trigger]
            moves_to(parser, from, symbol, state as usize) && seed == triples(
                moved_items(parser.grammar, parser.states@[from as int].items@, symbol),
            ).to_set(),
{
    let entries = map_entries(parser.transitions);
    if state == 0 {
        set![(0usize, 0usize, parser.grammar.eof)]
    } else {
        assert(arrives(entries, state, entries.len() as int));
        let j = choose|j: int|
            0 <= j < entries.len() && j < entries.len() && (#[trigger] entries[j]).1 == state;
        assert(leads(parser.grammar, parser.states@, entries[j]));
        let from = entries[j].0.0;
        let symbol = key_symbol(entries[j].0);
        lemma_next(parser.grammar, parser.states@[from as int].items@, symbol);
        lemma_entry(parser, j);
        assert(moves_to(parser, from, symbol, state as usize));
        triples(moved_items(parser.grammar, parser.states@[from as int].items@, symbol)).to_set()
    }
}

/// A state moves over a symbol to another, as the tables say it: by a shift or by
/// a place for a nonterminal. (Nothing moves over the empty symbol but between
/// item sets.)
pub open spec fn moves_to(parser: Parser, from: usize, symbol: Symbol, to: usize) -> bool {
    &&& from < parser.states@.len()
    &&& to < parser.states@.len()
    &&& exists|i: int|
        0 <= i < parser.states@[from as int].items@.len() && stands_before(
            parser.grammar,
            #[trigger] parser.states@[from as int].items@[i],
            symbol,
        )
    &&& match symbol {
        Symbol::T(t) => parser.actions_at(from, t).contains(Action::Shift(to)),
        Symbol::N(n) => parser.goto_at(from, n) == Some(to),
        Symbol::Epsilon => true,
    }
}

proof fn lemma_shift_listed(
    entries: Seq<(Triple, usize)>,
    state: usize,
    terminal: TerminalId,
    j: int,
)
    requires
        0 <= j < entries.len(),
        entries[j].0 == move_key(state, Symbol::T(terminal)),
    ensures
        shifts_of(entries, state, terminal).contains(Action::Shift(entries[j].1)),
    decreases entries.len(),
{
    let last = entries.len() - 1;
    let front = entries.drop_last();
    let before = shifts_of(front, state, terminal);
    if j < last {
        assert(front[j] == entries[j]);
        lemma_shift_listed(front, state, terminal, j);
        if entries.last().0 == move_key(state, Symbol::T(terminal)) {
            lemma_with_action_keeps(before, Action::Shift(entries.last().1), Action::Shift(entries[j].1));
        }
    } else {
        lemma_with_action_keeps(before, Action::Shift(entries[j].1), Action::Shift(entries[j].1));
    }
}

proof fn lemma_with_action_keeps(actions: Seq<Action>, added: Action, action: Action)
    ensures
        with_action(actions, added).contains(added),
        actions.contains(action) ==> with_action(actions, added).contains(action),
        with_action(actions, added).contains(action) ==> actions.contains(action) || action
            == added,
{
    if !actions.contains(added) {
        let all = actions.push(added);
        assert(all[actions.len() as int] == added);
        if actions.contains(action) {
            let k = actions.index_of(action);
            assert(all[k] == action);
        }
        if all.contains(action) {
            let k = all.index_of(action);
            if k < actions.len() {
                assert(actions[k] == action);
            }
        }
    }
}

proof fn lemma_due_keeps(
    g: Grammar,
    actions: Seq<Action>,
    items: Seq<LR1Item>,
    terminal: TerminalId,
    action: Action,
)
    ensures
        with_due(g, actions, items, terminal).contains(action) <==> actions.contains(action)
            || exists|i: int|
            0 <= i < items.len() && due(g, #[trigger] items[i]) == Some((terminal, action)),
    decreases items.len(),
{
    if items.len() > 0 {
        let front = items.drop_last();
        let last = items.len() - 1;
        lemma_due_keeps(g, actions, front, terminal, action);
        let before = with_due(g, actions, front, terminal);
        let held = exists|i: int|
            0 <= i < items.len() && due(g, #[trigger] items[i]) == Some((terminal, action));
        let held_before = exists|i: int|
            0 <= i < front.len() && due(g, #[trigger] front[i]) == Some((terminal, action));
        if held_before {
            let i = choose|i: int|
                0 <= i < front.len() && due(g, #[trigger] front[i]) == Some((terminal, action));
            assert(items[i] == front[i]);
        }
        if held {
            let i = choose|i: int|
                0 <= i < items.len() && due(g, #[trigger] items[i]) == Some((terminal, action));
            if i < last {
                assert(front[i] == items[i]);
            }
        }
        assert(held == (held_before || due(g, items[last]) == Some((terminal, action))));
        if let Some(found) = due(g, items[last]) {
            if found.0 == terminal {
                lemma_with_action_keeps(before, found.1, action);
            }
        }
    }
}

proof fn lemma_goto_listed(
    entries: Seq<(Triple, usize)>,
    state: usize,
    non_terminal: NonTerminalId,
    j: int,
)
    requires
        crate::framework::parse::tables::moves_rise(entries),
        0 <= j < entries.len(),
        entries[j].0 == move_key(state, Symbol::N(non_terminal)),
    ensures
        goto_of(entries, state, non_terminal) == Some(entries[j].1),
    decreases entries.len(),
{
    let last = entries.len() - 1;
    let front = entries.drop_last();
    if j < last {
        assert(entries[j].0 != entries[last].0);
        assert(front[j] == entries[j]);
        assert forall|a: int, b: int| 0 <= a < b < front.len() implies
            crate::collections::triple_le((#[trigger] front[a]).0, (#[trigger] front[b]).0)
            && front[a].0 != front[b].0 by {
            assert(entries[a].0 != entries[b].0);
        }
        lemma_goto_listed(front, state, non_terminal, j);
    }
}

/// A move of the collection is in the tables.
proof fn lemma_entry(parser: Parser, j: int)
    requires
        parser.wf(),
        0 <= j < map_entries(parser.transitions).len(),
    ensures
        ({
            let entry = map_entries(parser.transitions)[j];
            let from = entry.0.0;
            match key_symbol(entry.0) {
                Symbol::T(t) => parser.actions_at(from, t).contains(Action::Shift(entry.1)),
                Symbol::N(n) => parser.goto_at(from, n) == Some(entry.1),
                Symbol::Epsilon => true,
            }
        }),
{
    let entries = map_entries(parser.transitions);
    let entry = entries[j];
    let g = parser.grammar;
    assert(leads(g, parser.states@, entry));
    let from = entry.0.0;
    let items = parser.states@[from as int].items@;
    let symbol = key_symbol(entry.0);
    lemma_next(g, items, symbol);
    let i = choose|i: int| 0 <= i < items.len() && stands_before(g, #[trigger] items[i], symbol);
    let found = g.productions@[items[i].production as int];
    let fits = g.rhs_symbols@[found.rhs_start + items[i].dot];
    assert(crate::framework::parse::grammar::symbol_fits(fits, g.terminals, g.non_terminals));
    match symbol {
        Symbol::T(t) => {
            lemma_shift_listed(entries, from, t, j);
            lemma_due_keeps(
                g,
                shifts_of(entries, from, t),
                items,
                t,
                Action::Shift(entry.1),
            );
            assert(parser.actions_at(from, t) == actions_of(g, parser.states@, entries, from, t));
        },
        Symbol::N(n) => {
            lemma_goto_listed(entries, from, n, j);
            assert(parser.goto_at(from, n) == goto_of(entries, from, n));
        },
        Symbol::Epsilon => {},
    }
}

// ---------------------------------------------------------------------------
// The laws

/// A complete item is acted on: before its lookahead by the reduction of its
/// production, or, where it is that of the first production, at the end by
/// acceptance.
pub proof fn lemma_complete_items_act(parser: Parser, state: usize, i: int)
    requires
        parser.wf(),
        state < parser.states@.len(),
        0 <= i < parser.states@[state as int].items@.len(),
        ({
            let item = parser.states@[state as int].items@[i];
            item.dot == parser.grammar.productions@[item.production as int].rhs_len
        }),
    ensures
        ({
            let item = parser.states@[state as int].items@[i];
            if item.production == 0 {
                parser.actions_at(state, parser.grammar.eof).contains(Action::Accept)
            } else {
                parser.actions_at(state, item.lookahead).contains(Action::Reduce(item.production))
            }
        }),
{
    let g = parser.grammar;
    let entries = map_entries(parser.transitions);
    let items = parser.states@[state as int].items@;
    let item = items[i];
    assert(all_items(g, items));
    assert(is_item(g, items[i].triple()));
    let found = g.productions@[item.production as int];
    assert(found.rhs_start + found.rhs_len <= g.rhs_symbols@.len());
    assert(g.rhs(item.production as int).len() == found.rhs_len);
    let (t, action) = if item.production == 0 {
        (g.eof, Action::Accept)
    } else {
        (item.lookahead, Action::Reduce(item.production))
    };
    assert(due(g, items[i]) == Some((t, action)));
    lemma_due_keeps(g, shifts_of(entries, state, t), items, t, action);
    assert(parser.actions_at(state, t) == actions_of(g, parser.states@, entries, state, t));
}

/// Nothing is reduced or accepted without a complete item: a reduction has one of
/// its production with that lookahead, acceptance one of the first production.
pub proof fn lemma_actions_have_complete_items(
    parser: Parser,
    state: usize,
    terminal: TerminalId,
    action: Action,
)
    requires
        parser.wf(),
        state < parser.states@.len(),
        terminal < parser.grammar.terminals,
        parser.actions_at(state, terminal).contains(action),
        action is Reduce || action is Accept,
    ensures
        exists|i: int|
            0 <= i < parser.states@[state as int].items@.len() && {
                let item = #[trigger] parser.states@[state as int].items@[i];
                &&& item.dot == parser.grammar.productions@[item.production as int].rhs_len
                &&& if item.production == 0 {
                    action is Accept && terminal == parser.grammar.eof
                } else {
                    action == Action::Reduce(item.production) && terminal == item.lookahead
                }
            },
{
    let g = parser.grammar;
    let entries = map_entries(parser.transitions);
    let items = parser.states@[state as int].items@;
    assert(parser.actions_at(state, terminal) == actions_of(
        g,
        parser.states@,
        entries,
        state,
        terminal,
    ));
    lemma_due_keeps(g, shifts_of(entries, state, terminal), items, terminal, action);
    if shifts_of(entries, state, terminal).contains(action) {
        lemma_only_shifts(entries, state, terminal, action);
    }
    let i = choose|i: int|
        0 <= i < items.len() && due(g, #[trigger] items[i]) == Some((terminal, action));
    assert(all_items(g, items));
    assert(is_item(g, items[i].triple()));
    let found = g.productions@[items[i].production as int];
    assert(found.rhs_start + found.rhs_len <= g.rhs_symbols@.len());
    assert(g.rhs(items[i].production as int).len() == found.rhs_len);
}

proof fn lemma_only_shifts(
    entries: Seq<(Triple, usize)>,
    state: usize,
    terminal: TerminalId,
    action: Action,
)
    requires
        shifts_of(entries, state, terminal).contains(action),
    ensures
        exists|j: int|
            0 <= j < entries.len() && (#[trigger] entries[j]).0 == move_key(
                state,
                Symbol::T(terminal),
            ) && action == Action::Shift(entries[j].1),
    decreases entries.len(),
{
    if entries.len() > 0 {
        let last = entries.len() - 1;
        let front = entries.drop_last();
        let before = shifts_of(front, state, terminal);
        if entries.last().0 == move_key(state, Symbol::T(terminal)) {
            lemma_with_action_keeps(before, Action::Shift(entries.last().1), action);
            if !before.contains(action) {
                assert(entries[last].0 == move_key(state, Symbol::T(terminal)));
            }
        }
        if before.contains(action) {
            lemma_only_shifts(front, state, terminal, action);
            let j = choose|j: int|
                0 <= j < front.len() && (#[trigger] front[j]).0 == move_key(
                    state,
                    Symbol::T(terminal),
                ) && action == Action::Shift(front[j].1);
            assert(entries[j] == front[j]);
        }
    }
}

/// A state with an item before a symbol moves over it to a state that holds the
/// item behind the symbol: it shifts a terminal, and has a place for a
/// nonterminal.
pub proof fn lemma_items_move_on(parser: Parser, state: usize, i: int, symbol: Symbol)
    requires
        parser.wf(),
        state < parser.states@.len(),
        0 <= i < parser.states@[state as int].items@.len(),
        stands_before(parser.grammar, parser.states@[state as int].items@[i], symbol),
    ensures
        exists|to: usize| #[trigger]
            moves_to(parser, state, symbol, to) && parser.states@[to as int].items@.contains(
                stepped(parser.states@[state as int].items@[i]),
            ),
{
    let g = parser.grammar;
    let entries = map_entries(parser.transitions);
    let items = parser.states@[state as int].items@;
    lemma_next(g, items, symbol);
    assert(moves_on(g, parser.states@, entries, state as int));
    assert(next_symbols(g, items).contains(symbol));
    assert(has_entry(entries, move_key(state, symbol)));
    let j = choose|j: int|
        0 <= j < entries.len() && (#[trigger] entries[j]).0 == move_key(state, symbol);
    let to = entries[j].1;
    assert(leads(g, parser.states@, entries[j]));
    assert(key_symbol(entries[j].0) == symbol);
    lemma_entry(parser, j);
    assert(moves_to(parser, state, symbol, to));
    let next = stepped(items[i]);
    assert(all_items(g, items));
    lemma_moved(g, items, symbol, next);
    let seed = moved_items(g, items, symbol);
    lemma_triples_hold(seed, next);
    assert(called_within(g, triples(seed).to_set(), next.triple(), 0));
    assert(in_closure(g, triples(seed).to_set(), next.triple()));
    lemma_triples_hold(parser.states@[to as int].items@, next);
}

/// What a table moves to comes from an item that stands before the symbol, and
/// one symbol leads from a state to one state only.
pub proof fn lemma_moves_have_items(
    parser: Parser,
    state: usize,
    terminal: TerminalId,
    to: LRStateId,
    other: LRStateId,
)
    requires
        parser.wf(),
        state < parser.states@.len(),
        terminal < parser.grammar.terminals,
        parser.actions_at(state, terminal).contains(Action::Shift(to)),
        parser.actions_at(state, terminal).contains(Action::Shift(other)),
    ensures
        moves_to(parser, state, Symbol::T(terminal), to),
        to == other,
{
    let g = parser.grammar;
    let entries = map_entries(parser.transitions);
    let items = parser.states@[state as int].items@;
    let shifts = shifts_of(entries, state, terminal);
    assert(parser.actions_at(state, terminal) == actions_of(
        g,
        parser.states@,
        entries,
        state,
        terminal,
    ));
    lemma_due_keeps(g, shifts, items, terminal, Action::Shift(to));
    lemma_due_keeps(g, shifts, items, terminal, Action::Shift(other));
    lemma_only_shifts(entries, state, terminal, Action::Shift(to));
    lemma_only_shifts(entries, state, terminal, Action::Shift(other));
    let j = choose|j: int|
        0 <= j < entries.len() && (#[trigger] entries[j]).0 == move_key(
            state,
            Symbol::T(terminal),
        ) && Action::Shift(to) == Action::Shift(entries[j].1);
    let k = choose|k: int|
        0 <= k < entries.len() && (#[trigger] entries[k]).0 == move_key(
            state,
            Symbol::T(terminal),
        ) && Action::Shift(other) == Action::Shift(entries[k].1);
    if j < k {
        assert(entries[j].0 != entries[k].0);
    } else if k < j {
        assert(entries[k].0 != entries[j].0);
    }
    assert(leads(g, parser.states@, entries[j]));
    assert(key_symbol(entries[j].0) == Symbol::T(terminal));
    lemma_next(g, items, Symbol::T(terminal));
}

/// The place for a nonterminal comes from an item that stands before it.
pub proof fn lemma_gotos_have_items(parser: Parser, state: usize, non_terminal: NonTerminalId)
    requires
        parser.wf(),
        state < parser.states@.len(),
        non_terminal < parser.grammar.non_terminals,
        parser.goto_at(state, non_terminal) is Some,
    ensures
        moves_to(
            parser,
            state,
            Symbol::N(non_terminal),
            parser.goto_at(state, non_terminal)->Some_0,
        ),
{
    let g = parser.grammar;
    let entries = map_entries(parser.transitions);
    assert(parser.goto_at(state, non_terminal) == goto_of(entries, state, non_terminal));
    lemma_goto_from(entries, state, non_terminal);
    let j = choose|j: int|
        0 <= j < entries.len() && (#[trigger] entries[j]).0 == move_key(
            state,
            Symbol::N(non_terminal),
        ) && goto_of(entries, state, non_terminal) == Some(entries[j].1);
    assert(leads(g, parser.states@, entries[j]));
    assert(key_symbol(entries[j].0) == Symbol::N(non_terminal));
    lemma_next(g, parser.states@[state as int].items@, Symbol::N(non_terminal));
}

proof fn lemma_goto_from(entries: Seq<(Triple, usize)>, state: usize, non_terminal: NonTerminalId)
    requires
        goto_of(entries, state, non_terminal) is Some,
    ensures
        exists|j: int|
            0 <= j < entries.len() && (#[trigger] entries[j]).0 == move_key(
                state,
                Symbol::N(non_terminal),
            ) && goto_of(entries, state, non_terminal) == Some(entries[j].1),
    decreases entries.len(),
{
    let last = entries.len() - 1;
    if entries[last].0 == move_key(state, Symbol::N(non_terminal)) {
        assert(goto_of(entries, state, non_terminal) == Some(entries[last].1));
    } else {
        let front = entries.drop_last();
        lemma_goto_from(front, state, non_terminal);
        let j = choose|j: int|
            0 <= j < front.len() && (#[trigger] front[j]).0 == move_key(
                state,
                Symbol::N(non_terminal),
            ) && goto_of(front, state, non_terminal) == Some(front[j].1);
        assert(entries[j] == front[j]);
    }
}

/// A state that holds an item before a nonterminal holds the start of each
/// production of that nonterminal, before every terminal that can come behind it.
pub proof fn lemma_states_are_closed(
    parser: Parser,
    state: usize,
    i: int,
    production: ProductionId,
    terminal: TerminalId,
)
    requires
        parser.wf(),
        state < parser.states@.len(),
        0 <= i < parser.states@[state as int].items@.len(),
        production < parser.grammar.productions@.len(),
        stands_before(
            parser.grammar,
            parser.states@[state as int].items@[i],
            Symbol::N(parser.grammar.productions@[production as int].lhs),
        ),
        ({
            let item = parser.states@[state as int].items@[i];
            parser.grammar.begins(
                parser.grammar.rhs(item.production as int).skip(item.dot + 1),
                item.lookahead,
            ).contains(terminal)
        }),
    ensures
        parser.states@[state as int].items@.contains(
            LR1Item { production, dot: 0, lookahead: terminal },
        ),
{
    let g = parser.grammar;
    let items = parser.states@[state as int].items@;
    let seed = lemma_state_seed(parser, state as int);
    let next = LR1Item { production, dot: 0, lookahead: terminal };
    lemma_triples_hold(items, items[i]);
    let steps = choose|steps: nat| #[trigger] called_within(g, seed, items[i].triple(), steps);
    lemma_stands_before(g, items[i], Symbol::N(g.productions@[production as int].lhs));
    assert(calls_for(g, items[i].triple(), next.triple()));
    assert(called_within(g, seed, next.triple(), steps + 1));
    assert(in_closure(g, seed, next.triple()));
    lemma_triples_hold(items, next);
}

/// Where an item of a state comes from. One that has moved stood one place
/// earlier in a state that moves here over the symbol between. One at its start
/// is called for by another item of the state, or is the start of the grammar.
pub proof fn lemma_items_are_called_for(parser: Parser, state: usize, i: int)
    requires
        parser.wf(),
        state < parser.states@.len(),
        0 <= i < parser.states@[state as int].items@.len(),
    ensures
        ({
            let g = parser.grammar;
            let items = parser.states@[state as int].items@;
            let item = items[i];
            if item.dot > 0 {
                exists|from: usize, symbol: Symbol, k: int| #[trigger]
                    moves_to(parser, from, symbol, state) && 0 <= k
                        < parser.states@[from as int].items@.len() && stands_before(
                        g,
                        #[trigger] parser.states@[from as int].items@[k],
                        symbol,
                    ) && item == stepped(parser.states@[from as int].items@[k])
            } else {
                ||| state == 0 && item == (LR1Item { production: 0, dot: 0, lookahead: g.eof })
                ||| exists|k: int|
                    0 <= k < items.len() && stands_before(
                        g,
                        #[trigger] items[k],
                        Symbol::N(g.productions@[item.production as int].lhs),
                    ) && g.begins(
                        g.rhs(items[k].production as int).skip(items[k].dot + 1),
                        items[k].lookahead,
                    ).contains(item.lookahead)
            }
        }),
{
    let g = parser.grammar;
    let items = parser.states@[state as int].items@;
    let item = items[i];
    let seed = lemma_state_seed(parser, state as int);
    lemma_triples_hold(items, item);
    let steps = choose|steps: nat| #[trigger] called_within(g, seed, item.triple(), steps);
    if seed.contains(item.triple()) {
        if state > 0 {
            let (from, symbol) = choose|from: usize, symbol: Symbol| #[trigger]
                moves_to(parser, from, symbol, state) && seed == triples(
                    moved_items(g, parser.states@[from as int].items@, symbol),
                ).to_set();
            let moved = moved_items(g, parser.states@[from as int].items@, symbol);
            lemma_triples_hold(moved, item);
            assert(all_items(g, parser.states@[from as int].items@));
            lemma_moved(g, parser.states@[from as int].items@, symbol, item);
            let k = choose|k: int|
                0 <= k < parser.states@[from as int].items@.len() && stands_before(
                    g,
                    #[trigger] parser.states@[from as int].items@[k],
                    symbol,
                ) && item == stepped(parser.states@[from as int].items@[k]);
            assert(moves_to(parser, from, symbol, state));
            assert(stands_before(g, parser.states@[from as int].items@[k], symbol));
            assert(parser.states@[from as int].items@[k].dot < usize::MAX);
        }
    } else {
        let from = choose|from: Triple|
            called_within(g, seed, from, (steps - 1) as nat) && #[trigger] calls_for(
                g,
                from,
                item.triple(),
            );
        assert(in_closure(g, seed, from));
        assert(triples(items).contains(from));
        let k = triples(items).index_of(from);
        assert(triples(items)[k] == items[k].triple());
        lemma_stands_before(g, items[k], Symbol::N(g.productions@[item.production as int].lhs));
        assert(stands_before(g, items[k], Symbol::N(g.productions@[item.production as int].lhs)));
    }
}

/// The first state holds the start of the grammar, and no two states hold the
/// same items.
pub proof fn lemma_start_and_distinct_states(parser: Parser, a: int, b: int)
    requires
        parser.wf(),
        0 <= a < b < parser.states@.len(),
    ensures
        parser.states@[0].items@.contains(
            LR1Item { production: 0, dot: 0, lookahead: parser.grammar.eof },
        ),
        parser.states@[a].items@ != parser.states@[b].items@,
{
    lemma_start_item(parser);
}

/// The first state holds the start of the grammar.
pub proof fn lemma_start_item(parser: Parser)
    requires
        parser.wf(),
    ensures
        parser.states@[0].items@.contains(
            LR1Item { production: 0, dot: 0, lookahead: parser.grammar.eof },
        ),
{
    let start = LR1Item { production: 0, dot: 0, lookahead: parser.grammar.eof };
    let seed = set![(0usize, 0usize, parser.grammar.eof)];
    assert(called_within(parser.grammar, seed, start.triple(), 0));
    assert(in_closure(parser.grammar, seed, start.triple()));
    lemma_triples_hold(parser.states@[0].items@, start);
}

// ---------------------------------------------------------------------------
// Conflicts

proof fn lemma_reduces_in(actions: Seq<Action>, production: ProductionId)
    ensures
        reduces_in(actions).contains(production) <==> actions.contains(Action::Reduce(production)),
    decreases actions.len(),
{
    if actions.len() > 0 {
        let rest = actions.drop_last();
        let before = reduces_in(rest);
        let all = reduces_in(actions);
        let action = Action::Reduce(production);
        lemma_reduces_in(rest, production);
        if rest.contains(action) {
            let k = rest.index_of(action);
            assert(actions[k] == action);
            let j = before.index_of(production);
            assert(all[j] == production);
        }
        if actions.last() == action {
            assert(all[before.len() as int] == production);
        }
        if actions.contains(action) {
            let k = actions.index_of(action);
            if k < rest.len() {
                assert(rest[k] == action);
            }
        }
        if all.contains(production) {
            let j = all.index_of(production);
            if j < before.len() {
                assert(before[j] == production);
            } else {
                assert(actions[actions.len() - 1] == action);
            }
        }
    }
}

proof fn lemma_shift_in(actions: Seq<Action>, to: LRStateId)
    ensures
        shift_in(actions) == Some(to) ==> actions.contains(Action::Shift(to)),
        actions.contains(Action::Shift(to)) ==> shift_in(actions) is Some,
    decreases actions.len(),
{
    if actions.len() > 0 {
        let rest = actions.drop_last();
        lemma_shift_in(rest, to);
        let action = Action::Shift(to);
        if rest.contains(action) {
            let k = rest.index_of(action);
            assert(actions[k] == action);
        }
        if actions.last() == action {
            assert(actions[actions.len() - 1] == action);
        }
        if actions.contains(action) {
            let k = actions.index_of(action);
            if k < rest.len() {
                assert(rest[k] == action);
            }
        }
    }
}

proof fn lemma_row_conflicts(
    state: LRStateId,
    row: Seq<ActionSet>,
    until: int,
    conflict: ConflictView,
)
    requires
        0 <= until <= row.len(),
    ensures
        conflicts_in_row(state, row, until).contains(conflict) <==> exists|t: int|
            0 <= t < until && conflicts_at(
                state,
                t as u32,
                action_items(#[trigger] row[t]),
            ).contains(conflict),
    decreases until,
{
    if until > 0 {
        lemma_row_conflicts(state, row, until - 1, conflict);
        let before = conflicts_in_row(state, row, until - 1);
        let own = conflicts_at(state, (until - 1) as u32, action_items(row[until - 1]));
        lemma_joined(before, own, conflict);
    }
}

proof fn lemma_joined(before: Seq<ConflictView>, own: Seq<ConflictView>, conflict: ConflictView)
    ensures
        (before + own).contains(conflict) <==> before.contains(conflict) || own.contains(conflict),
{
    let all = before + own;
    if before.contains(conflict) {
        let k = before.index_of(conflict);
        assert(all[k] == conflict);
    }
    if own.contains(conflict) {
        let k = own.index_of(conflict);
        assert(all[before.len() + k] == conflict);
    }
    if all.contains(conflict) {
        let k = all.index_of(conflict);
        if k < before.len() {
            assert(before[k] == conflict);
        } else {
            assert(own[k - before.len()] == conflict);
        }
    }
}

proof fn lemma_table_conflicts(rows: Seq<Vec<ActionSet>>, until: int, conflict: ConflictView)
    requires
        0 <= until <= rows.len(),
    ensures
        conflicts_until(rows, until).contains(conflict) <==> exists|s: int|
            0 <= s < until && conflicts_in_row(
                s as usize,
                (#[trigger] rows[s])@,
                rows[s]@.len() as int,
            ).contains(conflict),
    decreases until,
{
    if until > 0 {
        lemma_table_conflicts(rows, until - 1, conflict);
        let before = conflicts_until(rows, until - 1);
        let own = conflicts_in_row(
            (until - 1) as usize,
            rows[until - 1]@,
            rows[until - 1]@.len() as int,
        );
        lemma_joined(before, own, conflict);
    }
}

proof fn lemma_conflicts_found(
    parser: Parser,
    state: usize,
    terminal: TerminalId,
    conflict: ConflictView,
)
    requires
        parser.wf(),
        state < parser.states@.len(),
        terminal < parser.grammar.terminals,
        conflicts_at(state, terminal, parser.actions_at(state, terminal)).contains(conflict),
    ensures
        conflict_views(parser.conflicts@).contains(conflict),
{
    let rows = parser.actions@;
    let row = rows[state as int]@;
    lemma_row_conflicts(state, row, row.len() as int, conflict);
    assert(action_items(row[terminal as int]) == parser.actions_at(state, terminal));
    lemma_table_conflicts(rows, rows.len() as int, conflict);
}

/// Each shift that competes with a reduction is listed as a conflict of the two.
pub proof fn lemma_shift_reduce_is_listed(
    parser: Parser,
    state: usize,
    terminal: TerminalId,
    shift: LRStateId,
    reduce: ProductionId,
)
    requires
        parser.wf(),
        state < parser.states@.len(),
        terminal < parser.grammar.terminals,
        parser.actions_at(state, terminal).contains(Action::Shift(shift)),
        parser.actions_at(state, terminal).contains(Action::Reduce(reduce)),
    ensures
        conflict_views(parser.conflicts@).contains(
            ConflictView::ShiftReduce { state, terminal, shift, reduce },
        ),
{
    let actions = parser.actions_at(state, terminal);
    lemma_shift_in(actions, shift);
    let found = shift_in(actions)->Some_0;
    lemma_shift_in(actions, found);
    lemma_moves_have_items(parser, state, terminal, shift, found);
    lemma_reduces_in(actions, reduce);
    let reduces = reduces_in(actions);
    let k = reduces.index_of(reduce);
    let conflict = ConflictView::ShiftReduce { state, terminal, shift, reduce };
    let all = conflicts_at(state, terminal, actions);
    assert(all[k] == conflict);
    lemma_conflicts_found(parser, state, terminal, conflict);
}

/// Where two productions compete, one conflict lists all that do.
pub proof fn lemma_reduce_reduce_is_listed(
    parser: Parser,
    state: usize,
    terminal: TerminalId,
    one: ProductionId,
    other: ProductionId,
) -> (reduces: Seq<ProductionId>)
    requires
        parser.wf(),
        state < parser.states@.len(),
        terminal < parser.grammar.terminals,
        one != other,
        parser.actions_at(state, terminal).contains(Action::Reduce(one)),
        parser.actions_at(state, terminal).contains(Action::Reduce(other)),
    ensures
        conflict_views(parser.conflicts@).contains(
            ConflictView::ReduceReduce { state, terminal, reduces },
        ),
        forall|production: ProductionId| #[trigger]
            reduces.contains(production) <==> parser.actions_at(state, terminal).contains(
                Action::Reduce(production),
            ),
{
    let actions = parser.actions_at(state, terminal);
    let reduces = reduces_in(actions);
    assert forall|production: ProductionId| #[trigger]
        reduces.contains(production) <==> actions.contains(Action::Reduce(production)) by {
        lemma_reduces_in(actions, production);
    }
    assert(reduces.contains(one) && reduces.contains(other));
    let i = reduces.index_of(one);
    let j = reduces.index_of(other);
    assert(i != j);
    let conflict = ConflictView::ReduceReduce { state, terminal, reduces };
    let all = conflicts_at(state, terminal, actions);
    assert(all[all.len() - 1] == conflict);
    lemma_conflicts_found(parser, state, terminal, conflict);
    reduces
}

/// Every conflict that is listed is one: its shift and its reduction, or its more
/// than one reduction, are all actions of the state before the terminal.
pub proof fn lemma_conflicts_are_conflicts(parser: Parser, conflict: ConflictView)
    requires
        parser.wf(),
        conflict_views(parser.conflicts@).contains(conflict),
    ensures
        match conflict {
            ConflictView::ShiftReduce { state, terminal, shift, reduce } => {
                &&& state < parser.states@.len()
                &&& terminal < parser.grammar.terminals
                &&& parser.actions_at(state, terminal).contains(Action::Shift(shift))
                &&& parser.actions_at(state, terminal).contains(Action::Reduce(reduce))
            },
            ConflictView::ReduceReduce { state, terminal, reduces } => {
                &&& state < parser.states@.len()
                &&& terminal < parser.grammar.terminals
                &&& reduces.len() > 1
                &&& forall|k: int|
                    0 <= k < reduces.len() ==> parser.actions_at(state, terminal).contains(
                        Action::Reduce(#[trigger] reduces[k]),
                    )
            },
        },
{
    let rows = parser.actions@;
    lemma_table_conflicts(rows, rows.len() as int, conflict);
    let s = choose|s: int|
        0 <= s < rows.len() && conflicts_in_row(
            s as usize,
            (#[trigger] rows[s])@,
            rows[s]@.len() as int,
        ).contains(conflict);
    let row = rows[s]@;
    lemma_row_conflicts(s as usize, row, row.len() as int, conflict);
    let t = choose|t: int|
        0 <= t < row.len() && conflicts_at(
            s as usize,
            t as u32,
            action_items(#[trigger] row[t]),
        ).contains(conflict);
    let actions = action_items(row[t]);
    assert(row.len() == parser.grammar.terminals);
    assert(parser.actions.len() == rows.len());
    assert(actions == parser.actions_at(s as usize, t as u32));
    let all = conflicts_at(s as usize, t as u32, actions);
    let k = all.index_of(conflict);
    let reduces = reduces_in(actions);
    if let Some(shift) = shift_in(actions) {
        lemma_shift_in(actions, shift);
        if k < reduces.len() {
            assert(reduces.contains(reduces[k]));
            lemma_reduces_in(actions, reduces[k]);
        }
    }
    assert forall|i: int| 0 <= i < reduces.len() implies actions.contains(
        Action::Reduce(#[trigger] reduces[i]),
    ) by {
        assert(reduces.contains(reduces[i]));
        lemma_reduces_in(actions, reduces[i]);
    }
}

} // verus!
