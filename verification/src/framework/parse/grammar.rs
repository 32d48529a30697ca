//! Grammars: symbols, productions, and what they can begin with.

use vstd::prelude::*;

use crate::sort::Ordered;

verus! {

/// A terminal of a grammar.
pub type TerminalId = u32;

/// A nonterminal of a grammar.
pub type NonTerminalId = u32;

/// A production of a grammar.
pub type ProductionId = usize;

/// One symbol of a production.
#[derive(Clone, Copy, Debug, PartialEq, Eq, PartialOrd, Ord, Structural, Hash)]
pub enum Symbol {
    T(TerminalId),
    N(NonTerminalId),
    Epsilon,
}

/// Symbols as pairs of numbers, in their order: terminals come first.
pub open spec fn symbol_rank(symbol: Symbol) -> (usize, u32) {
    match symbol {
        Symbol::T(id) => (0, id),
        Symbol::N(id) => (1, id),
        Symbol::Epsilon => (2, 0),
    }
}

/// The place of a symbol in the order of symbols.
pub fn rank_of_symbol(symbol: Symbol) -> (r: (usize, u32))
    ensures
        r == symbol_rank(symbol),
{
    match symbol {
        Symbol::T(id) => (0, id),
        Symbol::N(id) => (1, id),
        Symbol::Epsilon => (2, 0),
    }
}

impl Ordered for Symbol {
    open spec fn le_spec(self, other: Self) -> bool {
        symbol_rank(self).0 < symbol_rank(other).0 || (symbol_rank(self).0 == symbol_rank(other).0
            && symbol_rank(self).1 <= symbol_rank(other).1)
    }

    proof fn lemma_total() {
    }

    fn le_exec(&self, other: &Self) -> (r: bool) {
        let a = rank_of_symbol(*self);
        let b = rank_of_symbol(*other);
        a.0 < b.0 || (a.0 == b.0 && a.1 <= b.1)
    }
}

/// A production: what it reduces to, and where its symbols stand.
#[derive(Clone, Copy, Debug, PartialEq, Eq, Structural)]
pub struct Production {
    pub lhs: NonTerminalId,
    pub rhs_start: usize,
    pub rhs_len: usize,
}

/// A grammar with what its nonterminals can begin with. The first production
/// is the one that accepts.
pub struct Grammar {
    pub productions: Vec<Production>,
    /// The symbols of all productions, one after the other.
    pub rhs_symbols: Vec<Symbol>,
    pub terminals: usize,
    pub non_terminals: usize,
    pub eof: TerminalId,
    pub error_terminal: TerminalId,
    pub error_non_terminal: NonTerminalId,
    /// By nonterminal, whether it can be empty.
    pub nullable: Vec<bool>,
    /// By nonterminal and terminal, whether the one can begin with the other.
    pub first: Vec<Vec<bool>>,
}

/// A symbol is one of a grammar.
pub open spec fn symbol_fits(symbol: Symbol, terminals: usize, non_terminals: usize) -> bool {
    match symbol {
        Symbol::T(id) => id < terminals,
        Symbol::N(id) => id < non_terminals,
        Symbol::Epsilon => true,
    }
}

impl Grammar {
    /// Every id of the grammar is in range.
    pub open spec fn wf(self) -> bool {
        &&& 0 < self.productions@.len() <= u32::MAX
        &&& self.terminals <= u32::MAX
        &&& self.non_terminals <= u32::MAX
        &&& self.eof < self.terminals
        &&& self.error_terminal < self.terminals
        &&& self.nullable@.len() == self.non_terminals
        &&& self.first@.len() == self.non_terminals
        &&& forall|n: int|
            0 <= n < self.first@.len() ==> (#[trigger] self.first@[n])@.len() == self.terminals
        &&& forall|p: int|
            0 <= p < self.productions@.len() ==> {
                let production = #[trigger] self.productions@[p];
                &&& production.lhs < self.non_terminals
                &&& production.rhs_start + production.rhs_len <= self.rhs_symbols@.len()
            }
        &&& forall|i: int|
            0 <= i < self.rhs_symbols@.len() ==> symbol_fits(
                #[trigger] self.rhs_symbols@[i],
                self.terminals,
                self.non_terminals,
            )
    }

    /// The symbols of a production.
    pub open spec fn rhs(self, production: int) -> Seq<Symbol> {
        let found = self.productions@[production];
        self.rhs_symbols@.subrange(
            found.rhs_start as int,
            found.rhs_start + found.rhs_len,
        )
    }

    /// The terminals that a list of symbols, followed by a terminal, can begin
    /// with.
    pub open spec fn begins(self, symbols: Seq<Symbol>, lookahead: TerminalId) -> Set<TerminalId>
        decreases symbols.len(),
    {
        if symbols.len() == 0 {
            set![lookahead]
        } else {
            match symbols[0] {
                Symbol::T(id) => set![id],
                Symbol::N(id) => {
                    let own = Set::new(
                        |t: TerminalId| t < self.terminals && self.first@[id as int]@[t as int],
                    );
                    if self.nullable@[id as int] {
                        own.union(self.begins(symbols.drop_first(), lookahead))
                    } else {
                        own
                    }
                },
                Symbol::Epsilon => self.begins(symbols.drop_first(), lookahead),
            }
        }
    }

    /// How many terminals there are.
    pub fn terminal_count(&self) -> (r: usize)
        ensures
            r == self.terminals,
    {
        self.terminals
    }

    /// How many symbols a production has.
    pub fn production_rhs_len(&self, production: ProductionId) -> (r: usize)
        requires
            production < self.productions@.len(),
        ensures
            r == self.productions@[production as int].rhs_len,
    {
        self.productions[production].rhs_len
    }

    /// What a production reduces to.
    pub fn production_lhs(&self, production: ProductionId) -> (r: NonTerminalId)
        requires
            production < self.productions@.len(),
        ensures
            r == self.productions@[production as int].lhs,
    {
        self.productions[production].lhs
    }

    /// The terminals that the symbols of a production from a place on,
    /// followed by a terminal, can begin with.
    pub fn first_of_sequence(&self, production: ProductionId, from: usize, lookahead: TerminalId) -> (r:
        Vec<bool>)
        requires
            self.wf(),
            production < self.productions@.len(),
            from <= self.productions@[production as int].rhs_len,
            lookahead < self.terminals,
        ensures
            r@.len() == self.terminals,
            forall|t: TerminalId|
                #![trigger self.begins(self.rhs(production as int).skip(from as int), lookahead).contains(t)]
                t < self.terminals ==> (r@[t as int] == self.begins(
                    self.rhs(production as int).skip(from as int),
                    lookahead,
                ).contains(t)),
            forall|t: TerminalId| #[trigger] self.begins(
                self.rhs(production as int).skip(from as int),
                lookahead,
            ).contains(t) ==> t < self.terminals,
    {
        let mut out: Vec<bool> = Vec::new();
        let mut fill: usize = 0;
        while fill < self.terminals
            invariant
                fill <= self.terminals,
                out@.len() == fill,
                forall|t: int| 0 <= t < fill ==> !#[trigger] out@[t],
            decreases self.terminals - fill,
        {
            out.push(false);
            fill += 1;
        }
        let found = self.productions[production];
        let total: usize = self.rhs_symbols.len();
        let ghost symbols = self.rhs(production as int);
        let ghost target = self.begins(symbols.skip(from as int), lookahead);
        let mut at: usize = from;
        let ghost mut seen: Set<TerminalId> = Set::empty();
        assert(seen.union(target) =~= target);
        while at < found.rhs_len
            invariant
                self.wf(),
                production < self.productions@.len(),
                found == self.productions@[production as int],
                total == self.rhs_symbols@.len(),
                symbols == self.rhs(production as int),
                symbols.len() == found.rhs_len,
                at <= found.rhs_len,
                lookahead < self.terminals,
                out@.len() == self.terminals,
                target == self.begins(symbols.skip(from as int), lookahead),
                forall|t: TerminalId|
                    #[trigger] seen.contains(t) ==> t < self.terminals,
                forall|t: int|
                    0 <= t < self.terminals ==> (#[trigger] out@[t] == seen.contains(
                        t as TerminalId,
                    )),
                target == seen.union(self.begins(symbols.skip(at as int), lookahead)),
            decreases found.rhs_len - at,
        {
            let symbol = self.rhs_symbols[found.rhs_start + at];
            let ghost rest = symbols.skip(at as int);
            assert(rest[0] == symbol);
            assert(rest.drop_first() =~= symbols.skip(at as int + 1));
            assert(symbol_fits(symbol, self.terminals, self.non_terminals));
            match symbol {
                Symbol::T(id) => {
                    out.set(id as usize, true);
                    proof {
                        assert(target =~= seen.insert(id));
                        lemma_bits(self.terminals, out@, target);
                    }
                    return out;
                },
                Symbol::N(id) => {
                    let ghost before = out@;
                    let ghost own = Set::new(
                        |t: TerminalId| t < self.terminals && self.first@[id as int]@[t as int],
                    );
                    assert(self.first@[id as int]@.len() == self.terminals);
                    let mut t: usize = 0;
                    while t < self.terminals
                        invariant
                            self.wf(),
                            id < self.non_terminals,
                            t <= self.terminals,
                            self.first@[id as int]@.len() == self.terminals,
                            own == Set::new(
                                |t: TerminalId|
                                    t < self.terminals && self.first@[id as int]@[t as int],
                            ),
                            out@.len() == self.terminals,
                            before.len() == self.terminals,
                            forall|k: int|
                                0 <= k < t ==> (#[trigger] out@[k] == (before[k] || own.contains(
                                    k as TerminalId,
                                ))),
                            forall|k: int| t <= k < self.terminals ==> #[trigger] out@[k] == before[k],
                        decreases self.terminals - t,
                    {
                        assert(own.contains(t as TerminalId) == self.first@[id as int]@[t as int]);
                        if self.first[id as usize][t] {
                            out.set(t, true);
                        }
                        t += 1;
                    }
                    let ghost next = seen.union(own);
                    assert forall|k: int| 0 <= k < self.terminals implies (#[trigger] out@[k]
                        == next.contains(k as TerminalId)) by {
                        assert(before[k] == seen.contains(k as TerminalId));
                    }
                    if !self.nullable[id as usize] {
                        proof {
                            assert(target =~= next);
                            lemma_bits(self.terminals, out@, target);
                        }
                        return out;
                    }
                    proof {
                        let tail = self.begins(rest.drop_first(), lookahead);
                        assert(target =~= next.union(tail));
                        seen = next;
                    }
                },
                Symbol::Epsilon => {},
            }
            at += 1;
        }
        let ghost before = out@;
        out.set(lookahead as usize, true);
        proof {
            assert(symbols.skip(at as int) =~= Seq::<Symbol>::empty());
            assert(target =~= seen.insert(lookahead));
            lemma_bits(self.terminals, out@, target);
        }
        out
    }
}

/// Bits that say what a set holds.
proof fn lemma_bits(terminals: usize, bits: Seq<bool>, target: Set<TerminalId>)
    requires
        terminals <= u32::MAX,
        bits.len() == terminals,
        forall|t: int|
            0 <= t < terminals ==> (#[trigger] bits[t] == target.contains(t as TerminalId)),
    ensures
        forall|t: TerminalId|
            #![trigger target.contains(t)]
            t < terminals ==> (bits[t as int] == target.contains(t)),
{
    assert forall|t: TerminalId| #![trigger target.contains(t)] t < terminals implies (
    bits[t as int] == target.contains(t)) by {
        assert(bits[t as int] == target.contains((t as int) as TerminalId));
    }
}

} // verus!
