//! Building the tables of a parser: the canonical collection of item sets and
//! what it says to do.

use vstd::prelude::*;
use vstd::seq_lib::*;

use crate::collections::{
    has_entry, list_items, list_set_insert, list_set_new, list_set_place, map_entries,
    triple_items, triple_le, triple_map_at, triple_map_insert, triple_map_len, triple_map_new,
    triple_set_at, triple_set_insert, triple_set_len, triple_set_new, triple_set_sort, Triple,
};
use crate::framework::parse::grammar::{
    rank_of_symbol, symbol_fits, symbol_rank, Grammar, NonTerminalId, ProductionId, Symbol,
    TerminalId,
};
use crate::sort::{distinct_sorted, sorted_distinct};

verus! {

/// A state of the parser.
pub type LRStateId = usize;

// ---------------------------------------------------------------------------
// Items

/// A production with a place in it and the terminal that may follow.
#[derive(Clone, Copy, Debug, PartialEq, Eq, Hash, PartialOrd, Ord, Structural)]
pub struct LR1Item {
    pub production: ProductionId,
    pub dot: usize,
    pub lookahead: TerminalId,
}

impl LR1Item {
    /// The item as three numbers.
    pub open spec fn triple(self) -> Triple {
        (self.production, self.dot, self.lookahead)
    }

    /// The item with its place moved.
    pub fn move_dot(&self, offset: isize) -> (r: Self)
        requires
            self.dot <= isize::MAX,
            0 <= self.dot + offset <= isize::MAX,
        ensures
            r == (LR1Item {
                production: self.production,
                dot: (self.dot + offset) as usize,
                lookahead: self.lookahead,
            }),
    {
        LR1Item {
            production: self.production,
            dot: (self.dot as isize + offset) as usize,
            lookahead: self.lookahead,
        }
    }
}

/// Items as numbers.
pub open spec fn triples(items: Seq<LR1Item>) -> Seq<Triple> {
    items.map_values(|item: LR1Item| item.triple())
}

/// An item of a grammar.
pub open spec fn is_item(g: Grammar, item: Triple) -> bool {
    item.0 < g.productions@.len() && item.1 <= g.productions@[item.0 as int].rhs_len && item.2
        < g.terminals
}

/// The symbol behind the place of an item.
pub open spec fn symbol_at(g: Grammar, item: Triple) -> Option<Symbol> {
    if item.0 < g.productions@.len() && item.1 < g.rhs(item.0 as int).len() {
        Some(g.rhs(item.0 as int)[item.1 as int])
    } else {
        None
    }
}

/// An item calls for another: its next symbol is what the other produces, and
/// the other may be followed by what can come behind that symbol.
pub open spec fn calls_for(g: Grammar, item: Triple, next: Triple) -> bool {
    match symbol_at(g, item) {
        Some(Symbol::N(lhs)) => {
            &&& next.0 < g.productions@.len()
            &&& g.productions@[next.0 as int].lhs == lhs
            &&& next.1 == 0
            &&& g.begins(g.rhs(item.0 as int).skip(item.1 + 1), item.2).contains(next.2)
        },
        _ => false,
    }
}

/// An item is called for after at most so many steps from a seed.
pub open spec fn called_within(g: Grammar, seed: Set<Triple>, item: Triple, steps: nat) -> bool
    decreases steps,
{
    seed.contains(item) || (steps > 0 && exists|from: Triple|
        called_within(g, seed, from, (steps - 1) as nat) && #[trigger] calls_for(g, from, item))
}

/// An item belongs to the closure of a seed.
pub open spec fn in_closure(g: Grammar, seed: Set<Triple>, item: Triple) -> bool {
    exists|steps: nat| #[trigger] called_within(g, seed, item, steps)
}

/// Triples in strictly ascending order.
pub open spec fn triples_rise(list: Seq<Triple>) -> bool {
    forall|i: int, j: int|
        0 <= i < j < list.len() ==> triple_le(#[trigger] list[i], #[trigger] list[j]) && list[i]
            != list[j]
}

/// `items` is the closure of a seed, in ascending order.
pub open spec fn is_closure(g: Grammar, items: Seq<LR1Item>, seed: Set<Triple>) -> bool {
    &&& triples_rise(triples(items))
    &&& forall|item: Triple| #[trigger] triples(items).contains(item) <==> in_closure(g, seed, item)
}

/// Two closures of one seed are the same list.
pub proof fn lemma_closure_unique(
    g: Grammar,
    a: Seq<LR1Item>,
    b: Seq<LR1Item>,
    seed: Set<Triple>,
)
    requires
        is_closure(g, a, seed),
        is_closure(g, b, seed),
    ensures
        a == b,
{
    let x = triples(a);
    let y = triples(b);
    assert forall|item: Triple| x.contains(item) <==> y.contains(item) by {
        assert(x.contains(item) <==> in_closure(g, seed, item));
        assert(y.contains(item) <==> in_closure(g, seed, item));
    }
    lemma_rise_unique(x, y);
    assert forall|i: int| 0 <= i < a.len() implies a[i] == b[i] by {
        assert(x[i] == a[i].triple() && y[i] == b[i].triple());
    }
    assert(x.len() == a.len() && y.len() == b.len());
    assert(a =~= b);
}

proof fn lemma_rise_unique(x: Seq<Triple>, y: Seq<Triple>)
    requires
        triples_rise(x),
        triples_rise(y),
        forall|item: Triple| x.contains(item) <==> y.contains(item),
    ensures
        x == y,
    decreases x.len(),
{
    if x.len() == 0 {
        if y.len() > 0 {
            assert(y.contains(y[0]));
        }
        assert(x =~= y);
    } else {
        assert(x.contains(x[0]));
        assert(y.contains(x[0]));
        assert(y.contains(y[0]));
        assert(x.contains(y[0]));
        let k = choose|k: int| 0 <= k < y.len() && y[k] == x[0];
        let m = choose|m: int| 0 <= m < x.len() && x[m] == y[0];
        assert(x[0] == y[0]) by {
            if k > 0 {
                assert(triple_le(y[0], y[k]));
            }
            if m > 0 {
                assert(triple_le(x[0], x[m]));
            }
        }
        let a = x.drop_first();
        let b = y.drop_first();
        assert forall|item: Triple| a.contains(item) <==> b.contains(item) by {
            if a.contains(item) {
                let i = choose|i: int| 0 <= i < a.len() && a[i] == item;
                assert(x[i + 1] == item && x[0] != x[i + 1]);
                assert(y.contains(item));
                let j = choose|j: int| 0 <= j < y.len() && y[j] == item;
                assert(b[j - 1] == item);
            }
            if b.contains(item) {
                let i = choose|i: int| 0 <= i < b.len() && b[i] == item;
                assert(y[i + 1] == item && y[0] != y[i + 1]);
                assert(x.contains(item));
                let j = choose|j: int| 0 <= j < x.len() && x[j] == item;
                assert(a[j - 1] == item);
            }
        }
        assert(triples_rise(a)) by {
            assert forall|i: int, j: int| 0 <= i < j < a.len() implies triple_le(
                #[trigger] a[i],
                #[trigger] a[j],
            ) && a[i] != a[j] by {
                assert(triple_le(x[i + 1], x[j + 1]) && x[i + 1] != x[j + 1]);
            }
        }
        assert(triples_rise(b)) by {
            assert forall|i: int, j: int| 0 <= i < j < b.len() implies triple_le(
                #[trigger] b[i],
                #[trigger] b[j],
            ) && b[i] != b[j] by {
                assert(triple_le(y[i + 1], y[j + 1]) && y[i + 1] != y[j + 1]);
            }
        }
        lemma_rise_unique(a, b);
        assert(x =~= seq![x[0]] + a);
        assert(y =~= seq![y[0]] + b);
    }
}

/// What is called for by an item of the closure belongs to it.
proof fn lemma_closure_step(g: Grammar, seed: Set<Triple>, item: Triple, next: Triple)
    requires
        in_closure(g, seed, item),
        calls_for(g, item, next),
    ensures
        in_closure(g, seed, next),
{
    let steps = choose|steps: nat| #[trigger] called_within(g, seed, item, steps);
    assert(called_within(g, seed, next, steps + 1));
}

/// A set that holds the seed and all that it calls for holds the closure.
proof fn lemma_closed_holds(
    g: Grammar,
    seed: Set<Triple>,
    list: Seq<Triple>,
    item: Triple,
    steps: nat,
)
    requires
        forall|other: Triple| #[trigger] seed.contains(other) ==> list.contains(other),
        forall|k: int, next: Triple|
            0 <= k < list.len() && #[trigger] calls_for(g, list[k], next) ==> list.contains(next),
        called_within(g, seed, item, steps),
    ensures
        list.contains(item),
    decreases steps,
{
    if !seed.contains(item) {
        let from = choose|from: Triple|
            called_within(g, seed, from, (steps - 1) as nat) && #[trigger] calls_for(g, from, item);
        lemma_closed_holds(g, seed, list, from, (steps - 1) as nat);
        let k = choose|k: int| 0 <= k < list.len() && list[k] == from;
        assert(calls_for(g, list[k], item));
    }
}

proof fn lemma_triple_push(list: Seq<Triple>, added: Triple, item: Triple)
    ensures
        list.push(added).contains(item) <==> list.contains(item) || item == added,
{
    if list.contains(item) {
        let k = choose|k: int| 0 <= k < list.len() && list[k] == item;
        assert(list.push(added)[k] == item);
    }
    if item == added {
        assert(list.push(added)[list.len() as int] == item);
    }
    if list.push(added).contains(item) && item != added {
        let k = choose|k: int| 0 <= k < list.push(added).len() && list.push(added)[k] == item;
        assert(list[k] == item);
    }
}

/// One list extends another with items of a closure.
spec fn extends(g: Grammar, seed: Set<Triple>, before: Seq<Triple>, after: Seq<Triple>) -> bool {
    &&& before.len() <= after.len()
    &&& after.take(before.len() as int) == before
    &&& after.no_duplicates()
    &&& forall|k: int| 0 <= k < after.len() ==> in_closure(g, seed, #[trigger] after[k])
}

impl Grammar {
    /// The symbol behind the place of an item.
    pub fn symbol_after_dot(&self, item: &LR1Item) -> (r: Option<Symbol>)
        requires
            self.wf(),
        ensures
            r == symbol_at(*self, item.triple()),
    {
        if item.production >= self.productions.len() {
            return None;
        }
        let found = self.productions[item.production];
        let total: usize = self.rhs_symbols.len();
        assert(self.rhs(item.production as int).len() == found.rhs_len);
        if item.dot < found.rhs_len {
            assert(found.rhs_start + found.rhs_len <= total);
            Some(self.rhs_symbols[found.rhs_start + item.dot])
        } else {
            None
        }
    }

    /// The symbols behind the one at the place of an item.
    pub fn suffix_after_dot(&self, item: &LR1Item) -> (r: Vec<Symbol>)
        requires
            self.wf(),
            item.production < self.productions@.len(),
        ensures
            r@ == if item.dot < self.rhs(item.production as int).len() {
                self.rhs(item.production as int).skip(item.dot + 1)
            } else {
                Seq::empty()
            },
    {
        let found = self.productions[item.production];
        let ghost rhs = self.rhs(item.production as int);
        assert(rhs.len() == found.rhs_len);
        let total: usize = self.rhs_symbols.len();
        let mut out: Vec<Symbol> = Vec::new();
        if item.dot >= found.rhs_len {
            return out;
        }
        assert(found.rhs_start + found.rhs_len <= total);
        let mut i: usize = item.dot + 1;
        while i < found.rhs_len
            invariant
                item.dot < i <= found.rhs_len,
                found.rhs_start + found.rhs_len <= self.rhs_symbols@.len(),
                total == self.rhs_symbols@.len(),
                rhs == self.rhs(item.production as int),
                rhs.len() == found.rhs_len,
                forall|k: int|
                    0 <= k < rhs.len() ==> #[trigger] rhs[k] == self.rhs_symbols@[found.rhs_start
                        + k],
                out@ == rhs.subrange(item.dot + 1, i as int),
            decreases found.rhs_len - i,
        {
            out.push(self.rhs_symbols[found.rhs_start + i]);
            assert(rhs[i as int] == self.rhs_symbols@[found.rhs_start + i]);
            assert(rhs.subrange(item.dot + 1, i + 1) =~= rhs.subrange(
                item.dot + 1,
                i as int,
            ).push(rhs[i as int]));
            i += 1;
        }
        assert(rhs.subrange(item.dot + 1, i as int) =~= rhs.skip(item.dot + 1));
        out
    }

    /// Adds to a set all that one of its items calls for.
    fn call_all(
        &self,
        set: &mut indexmap::IndexSet<(usize, usize, u32)>,
        item: (usize, usize, u32),
        seed: Ghost<Set<Triple>>,
    )
        requires
            self.wf(),
            is_item(*self, item),
            in_closure(*self, seed@, item),
            triple_items(*old(set)).no_duplicates(),
            forall|k: int|
                0 <= k < triple_items(*old(set)).len() ==> in_closure(
                    *self,
                    seed@,
                    #[trigger] triple_items(*old(set))[k],
                ),
        ensures
            extends(*self, seed@, triple_items(*old(set)), triple_items(*final(set))),
            forall|next: Triple|
                #[trigger] calls_for(*self, item, next) ==> triple_items(*final(set)).contains(
                    next,
                ),
            forall|k: int|
                triple_items(*old(set)).len() <= k < triple_items(*final(set)).len() ==> is_item(
                    *self,
                    #[trigger] triple_items(*final(set))[k],
                ),
    {
        let ghost before = triple_items(*set);
        assert(before.take(before.len() as int) =~= before);
        let source = LR1Item { production: item.0, dot: item.1, lookahead: item.2 };
        let lhs: u32 = match self.symbol_after_dot(&source) {
            Some(Symbol::N(lhs)) => lhs,
            _ => {
                return ;
            },
        };
        let bits = self.first_of_sequence(item.0, item.1 + 1, item.2);
        let ghost suffix = self.rhs(item.0 as int).skip(item.1 + 1);
        let mut p: usize = 0;
        while p < self.productions.len()
            invariant
                self.wf(),
                is_item(*self, item),
                in_closure(*self, seed@, item),
                symbol_at(*self, item) == Some(Symbol::N(lhs)),
                suffix == self.rhs(item.0 as int).skip(item.1 + 1),
                bits@.len() == self.terminals,
                forall|t: TerminalId|
                    #![trigger self.begins(suffix, item.2).contains(t)]
                    t < self.terminals ==> (bits@[t as int] == self.begins(suffix, item.2).contains(
                        t,
                    )),
                forall|t: TerminalId|
                    #[trigger] self.begins(suffix, item.2).contains(t) ==> t < self.terminals,
                p <= self.productions@.len(),
                extends(*self, seed@, before, triple_items(*set)),
                forall|next: Triple|
                    next.0 < p && #[trigger] calls_for(*self, item, next) ==> triple_items(
                        *set,
                    ).contains(next),
                forall|k: int|
                    before.len() <= k < triple_items(*set).len() ==> is_item(
                        *self,
                        #[trigger] triple_items(*set)[k],
                    ),
            decreases self.productions@.len() - p,
        {
            if self.productions[p].lhs == lhs {
                let mut t: u32 = 0;
                while (t as usize) < self.terminals
                    invariant
                        self.wf(),
                        in_closure(*self, seed@, item),
                        symbol_at(*self, item) == Some(Symbol::N(lhs)),
                        suffix == self.rhs(item.0 as int).skip(item.1 + 1),
                        bits@.len() == self.terminals,
                        forall|t: TerminalId|
                            #![trigger self.begins(suffix, item.2).contains(t)]
                            t < self.terminals ==> (bits@[t as int] == self.begins(
                                suffix,
                                item.2,
                            ).contains(t)),
                        forall|t: TerminalId|
                            #[trigger] self.begins(suffix, item.2).contains(t) ==> t
                                < self.terminals,
                        p < self.productions@.len(),
                        self.productions@[p as int].lhs == lhs,
                        t <= self.terminals,
                        extends(*self, seed@, before, triple_items(*set)),
                        forall|next: Triple|
                            (next.0 < p || (next.0 == p && next.2 < t)) && #[trigger] calls_for(
                                *self,
                                item,
                                next,
                            ) ==> triple_items(*set).contains(next),
                        forall|k: int|
                            before.len() <= k < triple_items(*set).len() ==> is_item(
                                *self,
                                #[trigger] triple_items(*set)[k],
                            ),
                    decreases self.terminals - t,
                {
                    let ghost known = triple_items(*set);
                    let ghost added: Triple = (p, 0, t);
                    assert(bits@[t as int] == self.begins(suffix, item.2).contains(t));
                    if bits[t as usize] {
                        assert(calls_for(*self, item, added));
                        proof {
                            lemma_closure_step(*self, seed@, item, added);
                        }
                        let fresh = triple_set_insert(set, (p, 0, t));
                        proof {
                            let now = triple_items(*set);
                            assert forall|other: Triple| known.contains(other) || other
                                == added implies now.contains(other) by {
                                lemma_triple_push(known, added, other);
                            }
                            if fresh {
                                assert(now.take(before.len() as int) =~= known.take(
                                    before.len() as int,
                                ));
                            }
                        }
                    }
                    assert forall|next: Triple|
                        (next.0 < p || (next.0 == p && next.2 < t + 1)) && #[trigger] calls_for(
                            *self,
                            item,
                            next,
                        ) implies triple_items(*set).contains(next) by {
                        if next.0 == p && next.2 == t {
                            assert(next == added);
                            assert(self.begins(suffix, item.2).contains(t));
                        } else {
                            assert(known.contains(next));
                        }
                    }
                    t += 1;
                }
                assert forall|next: Triple|
                    next.0 < p + 1 && #[trigger] calls_for(*self, item, next) implies triple_items(
                    *set,
                ).contains(next) by {
                    if next.0 == p {
                        assert(self.begins(suffix, item.2).contains(next.2));
                    }
                }
            }
            p += 1;
        }
    }

    /// The closure of a list of items.
    pub fn closure(&self, seed: &Vec<LR1Item>) -> (r: Vec<LR1Item>)
        requires
            self.wf(),
            forall|i: int| 0 <= i < seed@.len() ==> is_item(*self, (#[trigger] seed@[i]).triple()),
        ensures
            is_closure(*self, r@, triples(seed@).to_set()),
            forall|i: int| 0 <= i < r@.len() ==> is_item(*self, (#[trigger] r@[i]).triple()),
    {
        let ghost source = triples(seed@).to_set();
        let mut set = triple_set_new();
        let mut index: usize = 0;
        while index < seed.len()
            invariant
                self.wf(),
                index <= seed@.len(),
                source == triples(seed@).to_set(),
                forall|i: int|
                    0 <= i < seed@.len() ==> is_item(*self, (#[trigger] seed@[i]).triple()),
                triple_items(set).no_duplicates(),
                forall|k: int|
                    0 <= k < triple_items(set).len() ==> in_closure(
                        *self,
                        source,
                        #[trigger] triple_items(set)[k],
                    ) && is_item(*self, triple_items(set)[k]),
                forall|i: int|
                    0 <= i < index ==> triple_items(set).contains((#[trigger] seed@[i]).triple()),
            decreases seed@.len() - index,
        {
            let item = seed[index];
            let ghost known = triple_items(set);
            let ghost added = item.triple();
            triple_set_insert(&mut set, (item.production, item.dot, item.lookahead));
            proof {
                assert(triples(seed@)[index as int] == added);
                assert(source.contains(added));
                assert(called_within(*self, source, added, 0));
                let now = triple_items(set);
                assert forall|i: int| 0 <= i < index + 1 implies now.contains(
                    (#[trigger] seed@[i]).triple(),
                ) by {
                    lemma_triple_push(known, added, seed@[i].triple());
                    if i < index {
                        assert(known.contains(seed@[i].triple()));
                    }
                }
                assert(is_item(*self, added));
            }
            index += 1;
        }
        assert forall|other: Triple| #[trigger] source.contains(other) implies triple_items(
            set,
        ).contains(other) by {
            let i = choose|i: int| 0 <= i < triples(seed@).len() && triples(seed@)[i] == other;
            assert(triple_items(set).contains(seed@[i].triple()));
        }
        let mut at: usize = 0;
        loop
            invariant
                self.wf(),
                source == triples(seed@).to_set(),
                at <= triple_items(set).len(),
                triple_items(set).no_duplicates(),
                forall|k: int|
                    0 <= k < triple_items(set).len() ==> in_closure(
                        *self,
                        source,
                        #[trigger] triple_items(set)[k],
                    ) && is_item(*self, triple_items(set)[k]),
                forall|other: Triple|
                    #[trigger] source.contains(other) ==> triple_items(set).contains(other),
                forall|k: int, next: Triple|
                    0 <= k < at && #[trigger] calls_for(*self, triple_items(set)[k], next)
                        ==> triple_items(set).contains(next),
            ensures
                at == triple_items(set).len(),
            decreases usize::MAX - at,
        {
            let total: usize = triple_set_len(&set);
            if at >= total {
                break;
            }
            let item: (usize, usize, u32) = match triple_set_at(&set, at) {
                Some(item) => item,
                None => {
                    break;
                },
            };
            let ghost before = triple_items(set);
            assert(before[at as int] == item);
            self.call_all(&mut set, item, Ghost(source));
            proof {
                let now = triple_items(set);
                assert forall|k: int| 0 <= k < before.len() implies #[trigger] now[k]
                    == before[k] by {
                    assert(now.take(before.len() as int)[k] == before[k]);
                }
                assert forall|k: int| 0 <= k < now.len() implies in_closure(
                    *self,
                    source,
                    #[trigger] now[k],
                ) && is_item(*self, now[k]) by {
                    if k < before.len() {
                        assert(now[k] == before[k]);
                    }
                }
                assert forall|other: Triple| before.contains(other) implies now.contains(other) by {
                    let k = choose|k: int| 0 <= k < before.len() && before[k] == other;
                    assert(now[k] == other);
                }
                assert forall|k: int, next: Triple|
                    0 <= k < at + 1 && #[trigger] calls_for(*self, now[k], next) implies
                    now.contains(next) by {
                    assert(now[k] == before[k]);
                    if k < at {
                        assert(calls_for(*self, before[k], next));
                        assert(before.contains(next));
                    }
                }
            }
            at += 1;
        }
        let ghost gathered = triple_items(set);
        triple_set_sort(&mut set);
        let ghost sorted = triple_items(set);
        proof {
            broadcast use group_to_multiset_ensures;

            assert(sorted.len() == gathered.len()) by {
                assert(sorted.to_multiset().len() == gathered.to_multiset().len());
            }
            assert forall|item: Triple| sorted.contains(item) <==> gathered.contains(item) by {
                assert(sorted.to_multiset().count(item) == gathered.to_multiset().count(item));
            }
            gathered.lemma_multiset_has_no_duplicates();
            assert forall|item: Triple| sorted.to_multiset().contains(item) implies
                sorted.to_multiset().count(item) == 1 by {
                assert(gathered.to_multiset().contains(item));
            }
            sorted.lemma_multiset_has_no_duplicates_conv();
        }
        let mut out: Vec<LR1Item> = Vec::new();
        let mut next: usize = 0;
        loop
            invariant
                sorted == triple_items(set),
                next <= sorted.len(),
                triples(out@) == sorted.take(next as int),
            ensures
                next == sorted.len(),
            decreases usize::MAX - next,
        {
            let total: usize = triple_set_len(&set);
            if next >= total {
                break;
            }
            let item: (usize, usize, u32) = match triple_set_at(&set, next) {
                Some(item) => item,
                None => {
                    break;
                },
            };
            let ghost before = out@;
            let made = LR1Item { production: item.0, dot: item.1, lookahead: item.2 };
            out.push(made);
            proof {
                assert(triples(out@) =~= triples(before).push(made.triple()));
                assert(sorted.take(next as int + 1) =~= sorted.take(next as int).push(
                    sorted[next as int],
                ));
            }
            next += 1;
        }
        proof {
            assert(sorted.take(next as int) =~= sorted);
            assert(triples_rise(sorted));
            assert forall|item: Triple| #[trigger] triples(out@).contains(item) <==> in_closure(
                *self,
                source,
                item,
            ) by {
                if gathered.contains(item) {
                    let k = choose|k: int| 0 <= k < gathered.len() && gathered[k] == item;
                    assert(in_closure(*self, source, gathered[k]));
                }
                if in_closure(*self, source, item) {
                    let steps = choose|steps: nat| #[trigger] called_within(
                        *self,
                        source,
                        item,
                        steps,
                    );
                    lemma_closed_holds(*self, source, gathered, item, steps);
                }
            }
            assert forall|i: int| 0 <= i < out@.len() implies is_item(
                *self,
                (#[trigger] out@[i]).triple(),
            ) by {
                assert(triples(out@)[i] == out@[i].triple());
                assert(sorted.contains(sorted[i]));
                let k = choose|k: int| 0 <= k < gathered.len() && gathered[k] == sorted[i];
                assert(is_item(*self, gathered[k]));
            }
        }
        out
    }
}

// ---------------------------------------------------------------------------
// Moves between item sets

/// The items whose next symbol is the given one, with their places moved over
/// it.
pub open spec fn moved_items(g: Grammar, items: Seq<LR1Item>, symbol: Symbol) -> Seq<LR1Item>
    decreases items.len(),
{
    if items.len() == 0 {
        Seq::empty()
    } else {
        let before = moved_items(g, items.drop_last(), symbol);
        let item = items.last();
        if symbol_at(g, item.triple()) == Some(symbol) {
            before.push(
                LR1Item {
                    production: item.production,
                    dot: (item.dot + 1) as usize,
                    lookahead: item.lookahead,
                },
            )
        } else {
            before
        }
    }
}

/// The symbols behind the places of items.
pub open spec fn next_symbols(g: Grammar, items: Seq<LR1Item>) -> Seq<Symbol>
    decreases items.len(),
{
    if items.len() == 0 {
        Seq::empty()
    } else {
        let before = next_symbols(g, items.drop_last());
        match symbol_at(g, items.last().triple()) {
            Some(symbol) => before.push(symbol),
            None => before,
        }
    }
}

/// Every item of a list is one of the grammar.
pub open spec fn all_items(g: Grammar, items: Seq<LR1Item>) -> bool {
    forall|i: int| 0 <= i < items.len() ==> is_item(g, (#[trigger] items[i]).triple())
}

proof fn lemma_next_symbols_fit(g: Grammar, items: Seq<LR1Item>)
    requires
        g.wf(),
        all_items(g, items),
    ensures
        forall|i: int|
            0 <= i < next_symbols(g, items).len() ==> symbol_fits(
                #[trigger] next_symbols(g, items)[i],
                g.terminals,
                g.non_terminals,
            ),
    decreases items.len(),
{
    if items.len() > 0 {
        let front = items.drop_last();
        assert(all_items(g, front)) by {
            assert forall|i: int| 0 <= i < front.len() implies is_item(
                g,
                (#[trigger] front[i]).triple(),
            ) by {
                assert(front[i] == items[i]);
            }
        }
        lemma_next_symbols_fit(g, front);
        let item = items.last().triple();
        assert(is_item(g, items[items.len() - 1].triple()));
        if symbol_at(g, item) is Some {
            let found = g.productions@[item.0 as int];
            assert(g.rhs(item.0 as int)[item.1 as int] == g.rhs_symbols@[found.rhs_start + item.1]);
        }
        let before = next_symbols(g, front);
        let all = next_symbols(g, items);
        assert forall|i: int| 0 <= i < all.len() implies symbol_fits(
            #[trigger] all[i],
            g.terminals,
            g.non_terminals,
        ) by {
            if i < before.len() {
                assert(all[i] == before[i]);
            }
        }
    }
}

impl Grammar {
    /// What an item set becomes after a symbol.
    pub fn goto(&self, from: &Vec<LR1Item>, symbol: Symbol) -> (r: Vec<LR1Item>)
        requires
            self.wf(),
            all_items(*self, from@),
        ensures
            is_closure(*self, r@, triples(moved_items(*self, from@, symbol)).to_set()),
            all_items(*self, r@),
    {
        let mut moved: Vec<LR1Item> = Vec::new();
        let mut at: usize = 0;
        while at < from.len()
            invariant
                self.wf(),
                at <= from@.len(),
                all_items(*self, from@),
                all_items(*self, moved@),
                moved@ == moved_items(*self, from@.take(at as int), symbol),
            decreases from@.len() - at,
        {
            let item = from[at];
            proof {
                assert(from@.take(at as int + 1).drop_last() =~= from@.take(at as int));
                assert(is_item(*self, from@[at as int].triple()));
            }
            if let Some(found) = self.symbol_after_dot(&item) {
                if found == symbol {
                    moved.push(
                        LR1Item {
                            production: item.production,
                            dot: item.dot + 1,
                            lookahead: item.lookahead,
                        },
                    );
                }
            }
            at += 1;
        }
        assert(from@.take(at as int) =~= from@);
        self.closure(&moved)
    }

    /// The symbols that an item set can move over, in ascending order.
    fn transition_symbols(&self, items: &Vec<LR1Item>) -> (r: Vec<Symbol>)
        requires
            self.wf(),
            all_items(*self, items@),
        ensures
            r@ == distinct_sorted(next_symbols(*self, items@).to_set()),
    {
        let mut found: Vec<Symbol> = Vec::new();
        let mut at: usize = 0;
        while at < items.len()
            invariant
                self.wf(),
                at <= items@.len(),
                found@ == next_symbols(*self, items@.take(at as int)),
            decreases items@.len() - at,
        {
            assert(items@.take(at as int + 1).drop_last() =~= items@.take(at as int));
            if let Some(symbol) = self.symbol_after_dot(&items[at]) {
                found.push(symbol);
            }
            at += 1;
        }
        assert(items@.take(at as int) =~= items@);
        sorted_distinct(&found)
    }
}

// ---------------------------------------------------------------------------
// The collection of item sets

/// An item set with its number.
pub struct LR1State {
    pub id: LRStateId,
    pub items: Vec<LR1Item>,
}

/// The item sets of states, as numbers.
pub open spec fn item_lists(states: Seq<LR1State>) -> Seq<Seq<Triple>> {
    states.map_values(|state: LR1State| triples(state.items@))
}

/// The key of a move: the state that it leaves and the symbol.
pub open spec fn move_key(state: usize, symbol: Symbol) -> Triple {
    (state, symbol_rank(symbol).0, symbol_rank(symbol).1)
}

/// The symbol of a move.
pub open spec fn key_symbol(key: Triple) -> Symbol {
    if key.1 == 0 {
        Symbol::T(key.2)
    } else if key.1 == 1 {
        Symbol::N(key.2)
    } else {
        Symbol::Epsilon
    }
}

/// A move is one of the collection: it leads from a state, over a symbol that
/// the state can move over, to the item set that results.
pub open spec fn leads(g: Grammar, states: Seq<LR1State>, entry: (Triple, usize)) -> bool {
    &&& entry.0.0 < states.len()
    &&& entry.1 < states.len()
    &&& entry.0 == move_key(entry.0.0, key_symbol(entry.0))
    &&& next_symbols(g, states[entry.0.0 as int].items@).contains(key_symbol(entry.0))
    &&& is_closure(
        g,
        states[entry.1 as int].items@,
        triples(
            moved_items(g, states[entry.0.0 as int].items@, key_symbol(entry.0)),
        ).to_set(),
    )
}

/// One of the first moves leads to a state.
pub open spec fn arrives(entries: Seq<(Triple, usize)>, state: int, before: int) -> bool {
    exists|j: int| 0 <= j < before && j < entries.len() && (#[trigger] entries[j]).1 == state
}

/// The moves are in ascending order of their keys.
pub open spec fn moves_rise(entries: Seq<(Triple, usize)>) -> bool {
    forall|i: int, j: int|
        0 <= i < j < entries.len() ==> triple_le(
            (#[trigger] entries[i]).0,
            (#[trigger] entries[j]).0,
        ) && entries[i].0 != entries[j].0
}

/// The states are numbered by their places, are item sets of the grammar, and
/// differ; the first one is the start.
pub open spec fn states_stand(g: Grammar, states: Seq<LR1State>) -> bool {
    &&& states.len() > 0
    &&& is_closure(g, states[0].items@, set![(0usize, 0usize, g.eof)])
    &&& forall|i: int|
        0 <= i < states.len() ==> (#[trigger] states[i]).id == i && all_items(g, states[i].items@)
    &&& forall|i: int, j: int|
        0 <= i < j < states.len() ==> (#[trigger] states[i]).items@ != (#[trigger] states[j]).items@
}

/// The moves are those of the collection. States are numbered in the order in
/// which the moves arrive at them.
pub open spec fn moves_stand(
    g: Grammar,
    states: Seq<LR1State>,
    entries: Seq<(Triple, usize)>,
) -> bool {
    &&& moves_rise(entries)
    &&& forall|i: int| 0 <= i < entries.len() ==> leads(g, states, #[trigger] entries[i])
    &&& forall|t: int| 0 < t < states.len() ==> #[trigger] arrives(entries, t, entries.len() as int)
    &&& forall|i: int, t: int|
        0 <= i < entries.len() && 0 < t < entries[i].1 ==> #[trigger] arrives(entries, t, i)
}

/// A state has a move for every symbol that it can move over.
pub open spec fn moves_on(
    g: Grammar,
    states: Seq<LR1State>,
    entries: Seq<(Triple, usize)>,
    state: int,
) -> bool {
    forall|symbol: Symbol| #[trigger]
        next_symbols(g, states[state].items@).contains(symbol) ==> has_entry(
            entries,
            move_key(state as usize, symbol),
        )
}

/// The canonical collection of a grammar.
pub open spec fn canonical(
    g: Grammar,
    states: Seq<LR1State>,
    entries: Seq<(Triple, usize)>,
) -> bool {
    &&& states_stand(g, states)
    &&& moves_stand(g, states, entries)
    &&& forall|s: int| 0 <= s < states.len() ==> #[trigger] moves_on(g, states, entries, s)
}

proof fn lemma_triples_injective(a: Seq<LR1Item>, b: Seq<LR1Item>)
    requires
        triples(a) == triples(b),
    ensures
        a == b,
{
    assert(triples(a).len() == a.len() && triples(b).len() == b.len());
    assert forall|i: int| 0 <= i < a.len() implies a[i] == b[i] by {
        assert(triples(a)[i] == a[i].triple() && triples(b)[i] == b[i].triple());
    }
    assert(a =~= b);
}

/// The place of an item set, and whether it is new.
fn intern_state(
    states: &mut Vec<LR1State>,
    keys: &mut indexmap::IndexSet<Vec<(usize, usize, u32)>>,
    items: Vec<LR1Item>,
) -> (r: (LRStateId, bool))
    requires
        list_items(*old(keys)) == item_lists(old(states)@),
    ensures
        list_items(*final(keys)) == item_lists(final(states)@),
        r.1 == !item_lists(old(states)@).contains(triples(items@)),
        r.1 ==> r.0 == old(states)@.len() && final(states)@ == old(states)@.push(
            LR1State { id: r.0, items },
        ),
        !r.1 ==> final(states)@ == old(states)@ && r.0 < old(states)@.len() && old(
            states,
        )@[r.0 as int].items@ == items@,
{
    let mut key: Vec<(usize, usize, u32)> = Vec::new();
    let mut at: usize = 0;
    while at < items.len()
        invariant
            at <= items@.len(),
            key@ == triples(items@.take(at as int)),
        decreases items@.len() - at,
    {
        let item = items[at];
        key.push((item.production, item.dot, item.lookahead));
        proof {
            assert(items@.take(at as int + 1) =~= items@.take(at as int).push(items@[at as int]));
            assert(key@ =~= triples(items@.take(at as int + 1)));
        }
        at += 1;
    }
    assert(items@.take(at as int) =~= items@);
    let ghost lists = item_lists(states@);
    if let Some(place) = list_set_place(keys, &key) {
        proof {
            assert(lists[place as int] == triples(states@[place as int].items@));
            lemma_triples_injective(states@[place as int].items@, items@);
            assert(lists.contains(lists[place as int]));
        }
        return (place, false);
    }
    let id: usize = states.len();
    list_set_insert(keys, key);
    let ghost before = states@;
    states.push(LR1State { id, items });
    proof {
        assert(item_lists(states@) =~= item_lists(before).push(triples(items@)));
    }
    (id, true)
}

/// The moves that are known while the states are walked: all of the earlier
/// states, and those of the present one over its first symbols.
spec fn gathered(
    g: Grammar,
    states: Seq<LR1State>,
    entries: Seq<(Triple, usize)>,
    at: int,
    symbols: Seq<Symbol>,
    done: int,
) -> bool {
    &&& states_stand(g, states)
    &&& moves_stand(g, states, entries)
    &&& forall|s: int| 0 <= s < at ==> #[trigger] moves_on(g, states, entries, s)
    &&& forall|i: int|
        0 <= i < entries.len() ==> (#[trigger] entries[i]).0.0 < at || (entries[i].0.0 == at
            && exists|k: int|
            0 <= k < done && entries[i].0 == move_key(at as usize, #[trigger] symbols[k]))
    &&& forall|k: int|
        0 <= k < done ==> has_entry(entries, move_key(at as usize, #[trigger] symbols[k]))
}

/// One more move keeps what is known.
proof fn lemma_gathered_step(
    g: Grammar,
    states: Seq<LR1State>,
    entries: Seq<(Triple, usize)>,
    at: int,
    symbols: Seq<Symbol>,
    done: int,
    grown: Seq<LR1State>,
    to: usize,
)
    requires
        g.wf(),
        gathered(g, states, entries, at, symbols, done),
        0 <= at < states.len() <= usize::MAX,
        0 <= done < symbols.len(),
        symbols == distinct_sorted(next_symbols(g, states[at].items@).to_set()),
        states_stand(g, grown),
        grown == states || (grown.len() == states.len() + 1 && grown.drop_last() == states && to
            == states.len()),
        to < grown.len(),
        is_closure(
            g,
            grown[to as int].items@,
            triples(moved_items(g, states[at].items@, symbols[done])).to_set(),
        ),
    ensures
        gathered(
            g,
            grown,
            entries.push((move_key(at as usize, symbols[done]), to)),
            at,
            symbols,
            done + 1,
        ),
        !has_entry(entries, move_key(at as usize, symbols[done])),
{
    let symbol = symbols[done];
    let key = move_key(at as usize, symbol);
    let set = next_symbols(g, states[at].items@).to_set();
    crate::sort::lemma_distinct_sorted(next_symbols(g, states[at].items@));
    assert(symbols.contains(symbol));
    assert(symbols.to_set().contains(symbol));
    assert(set.contains(symbol));
    let now = entries.push((key, to));
    assert forall|s: int| 0 <= s < states.len() implies #[trigger] grown[s] == states[s] by {
        if grown != states {
            assert(grown.drop_last()[s] == states[s]);
        }
    }
    assert forall|k: int| 0 <= k < done implies move_key(at as usize, #[trigger] symbols[k]) != key
        && triple_le(move_key(at as usize, symbols[k]), key) by {
        assert(symbols[k] != symbols[done]);
    }
    assert(!has_entry(entries, key));
    assert(moves_rise(now));
    assert(key_symbol(key) == symbol);
    assert forall|i: int| 0 <= i < now.len() implies leads(g, grown, #[trigger] now[i]) by {
        if i < entries.len() {
            assert(leads(g, states, entries[i]));
        }
    }
    assert forall|t: int| 0 < t < grown.len() implies #[trigger] arrives(
        now,
        t,
        now.len() as int,
    ) by {
        if t < states.len() {
            assert(arrives(entries, t, entries.len() as int));
            let j = choose|j: int|
                0 <= j < entries.len() && (#[trigger] entries[j]).1 == t;
            assert(now[j].1 == t);
        } else {
            assert(now[entries.len() as int].1 == t);
        }
    }
    assert forall|i: int, t: int| 0 <= i < now.len() && 0 < t < now[i].1 implies #[trigger] arrives(
        now,
        t,
        i,
    ) by {
        if i < entries.len() {
            assert(now[i] == entries[i]);
            assert(arrives(entries, t, i));
            let j = choose|j: int| 0 <= j < i && (#[trigger] entries[j]).1 == t;
            assert(now[j].1 == t);
        } else {
            assert(t < states.len());
            assert(arrives(entries, t, entries.len() as int));
            let j = choose|j: int|
                0 <= j < entries.len() && (#[trigger] entries[j]).1 == t;
            assert(now[j].1 == t);
        }
    }
    assert forall|s: int| 0 <= s < at implies #[trigger] moves_on(g, grown, now, s) by {
        assert(moves_on(g, states, entries, s));
        assert(grown[s] == states[s]);
        assert forall|other: Symbol| #[trigger]
            next_symbols(g, grown[s].items@).contains(other) implies has_entry(
            now,
            move_key(s as usize, other),
        ) by {
            assert(has_entry(entries, move_key(s as usize, other)));
            let j = choose|j: int|
                0 <= j < entries.len() && (#[trigger] entries[j]).0 == move_key(s as usize, other);
            assert(now[j].0 == move_key(s as usize, other));
        }
    }
    assert forall|i: int| 0 <= i < now.len() implies (#[trigger] now[i]).0.0 < at || (now[i].0.0
        == at && exists|k: int|
        0 <= k < done + 1 && now[i].0 == move_key(at as usize, #[trigger] symbols[k])) by {
        if i == entries.len() {
            assert(now[i].0 == move_key(at as usize, symbols[done]));
        } else {
            assert(now[i] == entries[i]);
            if entries[i].0.0 >= at {
                let k = choose|k: int|
                    0 <= k < done && entries[i].0 == move_key(at as usize, #[trigger] symbols[k]);
                assert(now[i].0 == move_key(at as usize, symbols[k]));
            }
        }
    }
    assert forall|k: int| 0 <= k < done + 1 implies has_entry(
        now,
        move_key(at as usize, #[trigger] symbols[k]),
    ) by {
        if k < done {
            assert(has_entry(entries, move_key(at as usize, symbols[k])));
            let j = choose|j: int|
                0 <= j < entries.len() && (#[trigger] entries[j]).0 == move_key(
                    at as usize,
                    symbols[k],
                );
            assert(now[j].0 == move_key(at as usize, symbols[k]));
        } else {
            assert(now[entries.len() as int].0 == move_key(at as usize, symbols[k]));
        }
    }
}

/// A new item set stands beside the others.
proof fn lemma_states_grow(g: Grammar, states: Seq<LR1State>, state: LR1State)
    requires
        states_stand(g, states),
        state.id == states.len(),
        all_items(g, state.items@),
        !item_lists(states).contains(triples(state.items@)),
    ensures
        states_stand(g, states.push(state)),
{
    let grown = states.push(state);
    assert forall|i: int, j: int| 0 <= i < j < grown.len() implies (#[trigger] grown[i]).items@ != (
    #[trigger] grown[j]).items@ by {
        if j == states.len() {
            assert(item_lists(states)[i] == triples(states[i].items@));
            if grown[i].items@ == grown[j].items@ {
                assert(item_lists(states).contains(item_lists(states)[i]));
            }
        }
    }
}

/// The states of a grammar and the moves between them.
pub struct Collection {
    pub states: Vec<LR1State>,
    pub transitions: indexmap::IndexMap<(usize, usize, u32), usize>,
}

impl Grammar {
    /// The canonical collection of item sets.
    pub fn collect_states(&self) -> (r: Collection)
        requires
            self.wf(),
        ensures
            canonical(*self, r.states@, map_entries(r.transitions)),
    {
        let mut states: Vec<LR1State> = Vec::new();
        let mut keys = list_set_new();
        let mut transitions = triple_map_new();
        let mut seed: Vec<LR1Item> = Vec::new();
        seed.push(LR1Item { production: 0, dot: 0, lookahead: self.eof });
        let ghost source = triples(seed@).to_set();
        proof {
            let first: Triple = (0usize, 0usize, self.eof);
            assert(triples(seed@) =~= seq![first]);
            assert(triples(seed@)[0] == first);
            assert(source =~= set![first]);
        }
        let start = self.closure(&seed);
        assert(list_items(keys) =~= item_lists(states@));
        intern_state(&mut states, &mut keys, start);
        proof {
            assert(states_stand(*self, states@));
        }
        let mut at: usize = 0;
        while at < states.len()
            invariant
                self.wf(),
                at <= states@.len(),
                list_items(keys) == item_lists(states@),
                gathered(
                    *self,
                    states@,
                    map_entries(transitions),
                    at as int,
                    Seq::empty(),
                    0,
                ),
            decreases usize::MAX - at,
        {
            let ghost begin = map_entries(transitions);
            let symbols = self.transition_symbols(&states[at].items);
            let ghost own = states@[at as int].items@;
            assert(gathered(*self, states@, begin, at as int, symbols@, 0)) by {
                assert forall|i: int| 0 <= i < begin.len() implies (#[trigger] begin[i]).0.0
                    < at by {}
            }
            let mut k: usize = 0;
            while k < symbols.len()
                invariant
                    self.wf(),
                    k <= symbols@.len(),
                    at < states@.len(),
                    own == states@[at as int].items@,
                    symbols@ == distinct_sorted(next_symbols(*self, own).to_set()),
                    list_items(keys) == item_lists(states@),
                    gathered(
                        *self,
                        states@,
                        map_entries(transitions),
                        at as int,
                        symbols@,
                        k as int,
                    ),
                decreases symbols@.len() - k,
            {
                let symbol = symbols[k];
                let total: usize = states.len();
                let ghost known = states@;
                let ghost entries = map_entries(transitions);
                let next = self.goto(&states[at].items, symbol);
                let (to, fresh) = intern_state(&mut states, &mut keys, next);
                proof {
                    if fresh {
                        lemma_states_grow(*self, known, states@.last());
                        assert(states@.drop_last() =~= known);
                    }
                    lemma_gathered_step(
                        *self,
                        known,
                        entries,
                        at as int,
                        symbols@,
                        k as int,
                        states@,
                        to,
                    );
                }
                let rank = rank_of_symbol(symbol);
                triple_map_insert(&mut transitions, (at, rank.0, rank.1), to);
                k += 1;
            }
            proof {
                let entries = map_entries(transitions);
                let set = next_symbols(*self, own).to_set();
                crate::sort::lemma_distinct_sorted(next_symbols(*self, own));
                assert(moves_on(*self, states@, entries, at as int)) by {
                    assert forall|symbol: Symbol| #[trigger]
                        next_symbols(*self, own).contains(symbol) implies has_entry(
                        entries,
                        move_key(at, symbol),
                    ) by {
                        assert(set.contains(symbol));
                        assert(symbols@.to_set().contains(symbol));
                        let j = choose|j: int| 0 <= j < symbols@.len() && symbols@[j] == symbol;
                        assert(has_entry(entries, move_key(at, symbols@[j])));
                    }
                }
                assert(gathered(*self, states@, entries, at + 1, Seq::empty(), 0));
            }
            at += 1;
        }
        Collection { states, transitions }
    }
}

// ---------------------------------------------------------------------------
// Actions

/// What to do in a state before a terminal.
#[derive(Clone, Copy, Debug, PartialEq, Eq, Structural)]
pub enum Action {
    Shift(LRStateId),
    Reduce(ProductionId),
    Accept,
    Error,
}

/// The actions of one place of the table, each once, in the order in which
/// they were found.
#[verifier::external_body]
pub struct ActionSet {
    inner: smallvec::SmallVec<[Action; 2]>,
}

/// The actions of a set, in their order.
pub uninterp spec fn action_items(set: ActionSet) -> Seq<Action>;

/// `SmallVec::new` gives a list without actions.
#[verifier::external_body]
fn actions_new() -> (r: ActionSet)
    ensures
        action_items(r) == Seq::<Action>::empty(),
{
    ActionSet { inner: smallvec::SmallVec::new() }
}

/// `SmallVec::push` puts an action at the end.
#[verifier::external_body]
fn actions_push(set: &mut ActionSet, action: Action)
    ensures
        action_items(*final(set)) == action_items(*old(set)).push(action),
{
    set.inner.push(action)
}

/// `SmallVec::len` is the number of actions.
#[verifier::external_body]
fn actions_len(set: &ActionSet) -> (r: usize)
    ensures
        r == action_items(*set).len(),
{
    set.inner.len()
}

/// Indexing a `SmallVec` gives the action at a place.
#[verifier::external_body]
fn actions_at(set: &ActionSet, at: usize) -> (r: Action)
    requires
        at < action_items(*set).len(),
    ensures
        r == action_items(*set)[at as int],
{
    set.inner[at]
}

/// A list with one action more, unless it has the action.
pub open spec fn with_action(actions: Seq<Action>, action: Action) -> Seq<Action> {
    if actions.contains(action) {
        actions
    } else {
        actions.push(action)
    }
}

/// An action that shifts.
pub open spec fn is_shift(action: Action) -> bool {
    action is Shift
}

impl ActionSet {
    /// A set without actions.
    pub fn new() -> (r: Self)
        ensures
            action_items(r) == Seq::<Action>::empty(),
    {
        actions_new()
    }

    /// How many actions there are.
    pub fn len(&self) -> (r: usize)
        ensures
            r == action_items(*self).len(),
    {
        actions_len(self)
    }

    /// The action at a place.
    pub fn at(&self, at: usize) -> (r: Action)
        requires
            at < action_items(*self).len(),
        ensures
            r == action_items(*self)[at as int],
    {
        actions_at(self, at)
    }

    /// Adds an action, unless the set has it.
    pub fn push(&mut self, action: Action)
        ensures
            action_items(*final(self)) == with_action(action_items(*old(self)), action),
    {
        let total: usize = actions_len(self);
        let mut at: usize = 0;
        while at < total
            invariant
                at <= total,
                total == action_items(*self).len(),
                *self == *old(self),
                forall|i: int| 0 <= i < at ==> #[trigger] action_items(*self)[i] != action,
            decreases total - at,
        {
            if actions_at(self, at) == action {
                assert(action_items(*self).contains(action));
                return ;
            }
            at += 1;
        }
        actions_push(self, action);
    }

    /// Whether one of the actions shifts.
    pub fn has_shift(&self) -> (r: bool)
        ensures
            r == exists|i: int|
                0 <= i < action_items(*self).len() && is_shift(#[trigger] action_items(*self)[i]),
    {
        let total: usize = actions_len(self);
        let mut at: usize = 0;
        while at < total
            invariant
                at <= total,
                total == action_items(*self).len(),
                forall|i: int| 0 <= i < at ==> !is_shift(#[trigger] action_items(*self)[i]),
            decreases total - at,
        {
            if let Action::Shift(_) = actions_at(self, at) {
                assert(is_shift(action_items(*self)[at as int]));
                return true;
            }
            at += 1;
        }
        false
    }
}

/// The shifts that moves give for a place of the table.
pub open spec fn shifts_of(entries: Seq<(Triple, usize)>, state: usize, terminal: TerminalId) -> Seq<
    Action,
>
    decreases entries.len(),
{
    if entries.len() == 0 {
        Seq::empty()
    } else {
        let before = shifts_of(entries.drop_last(), state, terminal);
        if entries.last().0 == move_key(state, Symbol::T(terminal)) {
            with_action(before, Action::Shift(entries.last().1))
        } else {
            before
        }
    }
}

/// The state that the moves give for a nonterminal: the last one named.
pub open spec fn goto_of(
    entries: Seq<(Triple, usize)>,
    state: usize,
    non_terminal: NonTerminalId,
) -> Option<usize>
    decreases entries.len(),
{
    if entries.len() == 0 {
        None
    } else if entries.last().0 == move_key(state, Symbol::N(non_terminal)) {
        Some(entries.last().1)
    } else {
        goto_of(entries.drop_last(), state, non_terminal)
    }
}

/// The action of an item that is complete: the terminal before which it is
/// due, and what to do.
pub open spec fn due(g: Grammar, item: LR1Item) -> Option<(TerminalId, Action)> {
    if symbol_at(g, item.triple()) is Some {
        None
    } else if item.production == 0 {
        Some((g.eof, Action::Accept))
    } else {
        Some((item.lookahead, Action::Reduce(item.production)))
    }
}

/// A list of actions with those that are due before a terminal.
pub open spec fn with_due(
    g: Grammar,
    actions: Seq<Action>,
    items: Seq<LR1Item>,
    terminal: TerminalId,
) -> Seq<Action>
    decreases items.len(),
{
    if items.len() == 0 {
        actions
    } else {
        let before = with_due(g, actions, items.drop_last(), terminal);
        match due(g, items.last()) {
            Some(found) => if found.0 == terminal {
                with_action(before, found.1)
            } else {
                before
            },
            None => before,
        }
    }
}

/// The actions of a place of the table: the shift, then what is due.
pub open spec fn actions_of(
    g: Grammar,
    states: Seq<LR1State>,
    entries: Seq<(Triple, usize)>,
    state: usize,
    terminal: TerminalId,
) -> Seq<Action> {
    with_due(g, shifts_of(entries, state, terminal), states[state as int].items@, terminal)
}

// ---------------------------------------------------------------------------
// Conflicts

/// Actions that exclude each other.
#[derive(Debug)]
pub enum Conflict {
    ShiftReduce { state: LRStateId, terminal: TerminalId, shift: LRStateId, reduce: ProductionId },
    ReduceReduce { state: LRStateId, terminal: TerminalId, reduces: Vec<ProductionId> },
}

/// What a conflict says.
pub ghost enum ConflictView {
    ShiftReduce { state: LRStateId, terminal: TerminalId, shift: LRStateId, reduce: ProductionId },
    ReduceReduce { state: LRStateId, terminal: TerminalId, reduces: Seq<ProductionId> },
}

impl View for Conflict {
    type V = ConflictView;

    open spec fn view(&self) -> ConflictView {
        match *self {
            Conflict::ShiftReduce { state, terminal, shift, reduce } => ConflictView::ShiftReduce {
                state,
                terminal,
                shift,
                reduce,
            },
            Conflict::ReduceReduce { state, terminal, reduces } => ConflictView::ReduceReduce {
                state,
                terminal,
                reduces: reduces@,
            },
        }
    }
}

/// What a list of conflicts says.
pub open spec fn conflict_views(conflicts: Seq<Conflict>) -> Seq<ConflictView> {
    conflicts.map_values(|conflict: Conflict| conflict@)
}

/// The state that the last shift of a list leads to.
pub open spec fn shift_in(actions: Seq<Action>) -> Option<LRStateId>
    decreases actions.len(),
{
    if actions.len() == 0 {
        None
    } else {
        match actions.last() {
            Action::Shift(to) => Some(to),
            _ => shift_in(actions.drop_last()),
        }
    }
}

/// The productions that a list reduces by.
pub open spec fn reduces_in(actions: Seq<Action>) -> Seq<ProductionId>
    decreases actions.len(),
{
    if actions.len() == 0 {
        Seq::empty()
    } else {
        match actions.last() {
            Action::Reduce(production) => reduces_in(actions.drop_last()).push(production),
            _ => reduces_in(actions.drop_last()),
        }
    }
}

/// The conflicts at one place of the table.
pub open spec fn conflicts_at(state: LRStateId, terminal: TerminalId, actions: Seq<Action>) -> Seq<
    ConflictView,
> {
    let reduces = reduces_in(actions);
    let first = match shift_in(actions) {
        Some(shift) => reduces.map_values(
            |reduce: ProductionId|
                ConflictView::ShiftReduce { state, terminal, shift, reduce },
        ),
        None => Seq::empty(),
    };
    if reduces.len() > 1 {
        first.push(ConflictView::ReduceReduce { state, terminal, reduces })
    } else {
        first
    }
}

/// The conflicts of the first places of a row.
pub open spec fn conflicts_in_row(state: LRStateId, row: Seq<ActionSet>, until: int) -> Seq<
    ConflictView,
>
    decreases until,
{
    if until <= 0 {
        Seq::empty()
    } else {
        conflicts_in_row(state, row, until - 1) + conflicts_at(
            state,
            (until - 1) as u32,
            action_items(row[until - 1]),
        )
    }
}

/// The conflicts of the first rows of the table.
pub open spec fn conflicts_until(rows: Seq<Vec<ActionSet>>, until: int) -> Seq<ConflictView>
    decreases until,
{
    if until <= 0 {
        Seq::empty()
    } else {
        conflicts_until(rows, until - 1) + conflicts_in_row(
            (until - 1) as usize,
            rows[until - 1]@,
            rows[until - 1]@.len() as int,
        )
    }
}

/// Fewer than two actions are in no conflict.
pub proof fn lemma_single_action_agrees(
    state: LRStateId,
    terminal: TerminalId,
    actions: Seq<Action>,
)
    requires
        actions.len() <= 1,
    ensures
        conflicts_at(state, terminal, actions) == Seq::<ConflictView>::empty(),
{
    reveal_with_fuel(shift_in, 3);
    reveal_with_fuel(reduces_in, 3);
    assert(conflicts_at(state, terminal, actions) =~= Seq::<ConflictView>::empty());
}

/// Adds the conflicts at one place.
fn note_conflicts(
    out: &mut Vec<Conflict>,
    state: LRStateId,
    terminal: TerminalId,
    actions: &ActionSet,
)
    ensures
        conflict_views(final(out)@) == conflict_views(old(out)@) + conflicts_at(
            state,
            terminal,
            action_items(*actions),
        ),
{
    let total: usize = actions.len();
    let ghost list = action_items(*actions);
    if total <= 1 {
        proof {
            lemma_single_action_agrees(state, terminal, list);
            assert(conflict_views(out@) + conflicts_at(state, terminal, list) =~= conflict_views(
                out@,
            ));
        }
        return ;
    }
    let mut shift: Option<usize> = None;
    let mut reduces: Vec<usize> = Vec::new();
    let mut at: usize = 0;
    while at < total
        invariant
            at <= total,
            total == list.len(),
            list == action_items(*actions),
            shift == shift_in(list.take(at as int)),
            reduces@ == reduces_in(list.take(at as int)),
        decreases total - at,
    {
        assert(list.take(at as int + 1).drop_last() =~= list.take(at as int));
        match actions.at(at) {
            Action::Shift(target) => {
                shift = Some(target);
            },
            Action::Reduce(production) => {
                reduces.push(production);
            },
            Action::Accept | Action::Error => {},
        }
        at += 1;
    }
    assert(list.take(at as int) =~= list);
    let ghost start = conflict_views(out@);
    let ghost mut first: Seq<ConflictView> = Seq::empty();
    if let Some(shift) = shift {
        let ghost pairs = reduces@.map_values(
            |reduce: ProductionId| ConflictView::ShiftReduce { state, terminal, shift, reduce },
        );
        let mut k: usize = 0;
        while k < reduces.len()
            invariant
                k <= reduces@.len(),
                pairs == reduces@.map_values(
                    |reduce: ProductionId|
                        ConflictView::ShiftReduce { state, terminal, shift, reduce },
                ),
                conflict_views(out@) == start + pairs.take(k as int),
            decreases reduces@.len() - k,
        {
            let ghost before = out@;
            let made = Conflict::ShiftReduce { state, terminal, shift, reduce: reduces[k] };
            out.push(made);
            proof {
                assert(conflict_views(out@) =~= conflict_views(before).push(made@));
                assert(pairs.take(k as int + 1) =~= pairs.take(k as int).push(pairs[k as int]));
                assert(conflict_views(out@) =~= start + pairs.take(k as int + 1));
            }
            k += 1;
        }
        proof {
            assert(pairs.take(k as int) =~= pairs);
            first = pairs;
        }
    }
    assert(conflict_views(out@) =~= start + first);
    if reduces.len() > 1 {
        let ghost before = out@;
        let made = Conflict::ReduceReduce { state, terminal, reduces };
        out.push(made);
        proof {
            assert(conflict_views(out@) =~= conflict_views(before).push(made@));
            assert(conflict_views(out@) =~= start + first.push(made@));
        }
    }
}

// ---------------------------------------------------------------------------
// The parser's tables

/// The tables of a parser.
pub struct Parser {
    pub grammar: Grammar,
    pub states: Vec<LR1State>,
    pub transitions: indexmap::IndexMap<(usize, usize, u32), usize>,
    pub conflicts: Vec<Conflict>,
    /// By state and terminal.
    pub actions: Vec<Vec<ActionSet>>,
    /// By state and nonterminal.
    pub gotos: Vec<Vec<Option<LRStateId>>>,
}

impl Parser {
    /// The tables are as large as the grammar and the states ask.
    pub open spec fn sized(self) -> bool {
        &&& self.actions@.len() == self.states@.len()
        &&& self.gotos@.len() == self.states@.len()
        &&& forall|s: int|
            0 <= s < self.actions@.len() ==> (#[trigger] self.actions@[s])@.len()
                == self.grammar.terminals
        &&& forall|s: int|
            0 <= s < self.gotos@.len() ==> (#[trigger] self.gotos@[s])@.len()
                == self.grammar.non_terminals
    }

    /// The tables say what the grammar says.
    pub open spec fn wf(self) -> bool {
        &&& self.grammar.wf()
        &&& canonical(self.grammar, self.states@, map_entries(self.transitions))
        &&& self.sized()
        &&& forall|s: usize, t: TerminalId|
            s < self.states@.len() && t < self.grammar.terminals ==> #[trigger] self.actions_at(
                s,
                t,
            ) == actions_of(self.grammar, self.states@, map_entries(self.transitions), s, t)
        &&& forall|s: usize, n: NonTerminalId|
            s < self.states@.len() && n < self.grammar.non_terminals
                ==> #[trigger] self.goto_at(s, n) == goto_of(map_entries(self.transitions), s, n)
        &&& conflict_views(self.conflicts@) == conflicts_until(
            self.actions@,
            self.actions@.len() as int,
        )
    }

    /// The actions at a place of the table.
    pub open spec fn actions_at(self, state: usize, terminal: TerminalId) -> Seq<Action> {
        action_items(self.actions@[state as int]@[terminal as int])
    }

    /// The state at a place of the table.
    pub open spec fn goto_at(self, state: usize, non_terminal: NonTerminalId) -> Option<LRStateId> {
        self.gotos@[state as int]@[non_terminal as int]
    }

    /// What to do in a state before a terminal.
    pub fn action_set(&self, state: LRStateId, terminal: TerminalId) -> (r: &ActionSet)
        requires
            self.sized(),
            state < self.states@.len(),
            terminal < self.grammar.terminals,
        ensures
            action_items(*r) == self.actions_at(state, terminal),
    {
        &self.actions[state][terminal as usize]
    }

    /// The state after a nonterminal.
    pub fn goto_state(&self, state: LRStateId, non_terminal: NonTerminalId) -> (r: Option<LRStateId>)
        requires
            self.sized(),
            state < self.states@.len(),
            non_terminal < self.grammar.non_terminals,
        ensures
            r == self.goto_at(state, non_terminal),
    {
        self.gotos[state][non_terminal as usize]
    }

    /// A state shifts a terminal.
    pub open spec fn shifts(self, state: usize, terminal: TerminalId) -> bool {
        exists|i: int|
            0 <= i < self.actions_at(state, terminal).len() && is_shift(
                #[trigger] self.actions_at(state, terminal)[i],
            )
    }

    /// The terminals that a state shifts, in ascending order.
    pub fn shift_terminals_for_state(&self, state: LRStateId) -> (r: Vec<TerminalId>)
        requires
            self.sized(),
            self.grammar.terminals <= u32::MAX,
            state < self.states@.len(),
        ensures
            forall|i: int, j: int| 0 <= i < j < r@.len() ==> #[trigger] r@[i] < #[trigger] r@[j],
            forall|t: TerminalId|
                #[trigger] r@.contains(t) <==> t < self.grammar.terminals && self.shifts(state, t),
    {
        let mut out: Vec<u32> = Vec::new();
        let mut t: u32 = 0;
        while (t as usize) < self.grammar.terminals
            invariant
                self.sized(),
                self.grammar.terminals <= u32::MAX,
                state < self.states@.len(),
                t <= self.grammar.terminals,
                forall|i: int, j: int|
                    0 <= i < j < out@.len() ==> #[trigger] out@[i] < #[trigger] out@[j],
                forall|u: TerminalId|
                    #[trigger] out@.contains(u) <==> u < t && self.shifts(state, u),
            decreases self.grammar.terminals - t,
        {
            let ghost before = out@;
            let set = self.action_set(state, t);
            let found = set.has_shift();
            assert(found == self.shifts(state, t));
            if found {
                proof {
                    assert forall|i: int| 0 <= i < before.len() implies #[trigger] before[i] < t by {
                        assert(before.contains(before[i]));
                    }
                }
                out.push(t);
                proof {
                    assert forall|u: TerminalId|
                        #[trigger] out@.contains(u) <==> u < t + 1 && self.shifts(state, u) by {
                        assert(out@[before.len() as int] == t);
                        if before.contains(u) {
                            let k = choose|k: int| 0 <= k < before.len() && before[k] == u;
                            assert(out@[k] == u);
                        }
                        if out@.contains(u) && u != t {
                            let k = choose|k: int| 0 <= k < out@.len() && out@[k] == u;
                            assert(before[k] == u);
                        }
                    }
                }
            }
            t += 1;
        }
        out
    }
}

/// A row without actions.
fn empty_actions(width: usize) -> (r: Vec<ActionSet>)
    ensures
        r@.len() == width,
        forall|i: int|
            0 <= i < width ==> action_items(#[trigger] r@[i]) == Seq::<Action>::empty(),
{
    let mut out: Vec<ActionSet> = Vec::new();
    while out.len() < width
        invariant
            out@.len() <= width,
            forall|i: int|
                0 <= i < out@.len() ==> action_items(#[trigger] out@[i]) == Seq::<Action>::empty(),
        decreases width - out@.len(),
    {
        out.push(ActionSet::new());
    }
    out
}

/// A row without states.
fn empty_gotos(width: usize) -> (r: Vec<Option<LRStateId>>)
    ensures
        r@.len() == width,
        forall|i: int| 0 <= i < width ==> (#[trigger] r@[i]) is None,
{
    let mut out: Vec<Option<usize>> = Vec::new();
    while out.len() < width
        invariant
            out@.len() <= width,
            forall|i: int| 0 <= i < out@.len() ==> (#[trigger] out@[i]) is None,
        decreases width - out@.len(),
    {
        out.push(None);
    }
    out
}

/// Adds an action at a place of the table.
fn add_action(
    table: &mut Vec<Vec<ActionSet>>,
    state: LRStateId,
    terminal: TerminalId,
    action: Action,
)
    requires
        state < old(table)@.len(),
        terminal < old(table)@[state as int]@.len(),
    ensures
        final(table)@.len() == old(table)@.len(),
        forall|s: int|
            0 <= s < old(table)@.len() ==> (#[trigger] final(table)@[s])@.len() == old(
                table,
            )@[s]@.len(),
        forall|s: int, t: int|
            0 <= s < old(table)@.len() && 0 <= t < old(table)@[s]@.len() ==> action_items(
                #[trigger] final(table)@[s]@[t],
            ) == if s == state && t == terminal {
                with_action(action_items(old(table)@[s]@[t]), action)
            } else {
                action_items(old(table)@[s]@[t])
            },
{
    let row = &mut table[state];
    let place = &mut row[terminal as usize];
    place.push(action);
}

/// Sets the state at a place of the table.
fn set_goto(
    table: &mut Vec<Vec<Option<LRStateId>>>,
    state: LRStateId,
    non_terminal: NonTerminalId,
    next: LRStateId,
)
    requires
        state < old(table)@.len(),
        non_terminal < old(table)@[state as int]@.len(),
    ensures
        final(table)@.len() == old(table)@.len(),
        forall|s: int|
            0 <= s < old(table)@.len() ==> (#[trigger] final(table)@[s])@.len() == old(
                table,
            )@[s]@.len(),
        forall|s: int, n: int|
            0 <= s < old(table)@.len() && 0 <= n < old(table)@[s]@.len() ==> (#[trigger] final(table)@[s]@[n]) == if s == state && n == non_terminal {
                Some(next)
            } else {
                old(table)@[s]@[n]
            },
{
    let row = &mut table[state];
    row[non_terminal as usize] = Some(next);
}

impl Parser {
    /// Enters the moves into the tables.
    fn fill_moves(&mut self)
        requires
            old(self).grammar.wf(),
            canonical(old(self).grammar, old(self).states@, map_entries(old(self).transitions)),
            old(self).sized(),
            forall|s: int, t: int|
                0 <= s < old(self).states@.len() && 0 <= t < old(self).grammar.terminals
                    ==> action_items(#[trigger] old(self).actions@[s]@[t]) == Seq::<Action>::empty(),
            forall|s: int, n: int|
                0 <= s < old(self).states@.len() && 0 <= n < old(self).grammar.non_terminals
                    ==> (#[trigger] old(self).gotos@[s]@[n]) is None,
        ensures
            final(self).grammar == old(self).grammar,
            final(self).states == old(self).states,
            final(self).transitions == old(self).transitions,
            final(self).conflicts == old(self).conflicts,
            final(self).sized(),
            forall|s: int, t: int|
                0 <= s < old(self).states@.len() && 0 <= t < old(self).grammar.terminals
                    ==> action_items(#[trigger] final(self).actions@[s]@[t]) == shifts_of(
                    map_entries(old(self).transitions),
                    s as usize,
                    t as u32,
                ),
            forall|s: int, n: int|
                0 <= s < old(self).states@.len() && 0 <= n < old(self).grammar.non_terminals ==> (
                #[trigger] final(self).gotos@[s]@[n]) == goto_of(
                    map_entries(old(self).transitions),
                    s as usize,
                    n as u32,
                ),
    {
        let ghost entries = map_entries(self.transitions);
        let total: usize = triple_map_len(&self.transitions);
        let count: usize = self.states.len();
        let mut at: usize = 0;
        while at < total
            invariant
                at <= total,
                total == entries.len(),
                count == self.states@.len(),
                entries == map_entries(self.transitions),
                self.grammar == old(self).grammar,
                self.states == old(self).states,
                self.transitions == old(self).transitions,
                self.conflicts == old(self).conflicts,
                self.grammar.wf(),
                canonical(self.grammar, self.states@, entries),
                self.sized(),
                forall|s: int, t: int|
                    0 <= s < self.states@.len() && 0 <= t < self.grammar.terminals ==> action_items(
                        #[trigger] self.actions@[s]@[t],
                    ) == shifts_of(entries.take(at as int), s as usize, t as u32),
                forall|s: int, n: int|
                    0 <= s < self.states@.len() && 0 <= n < self.grammar.non_terminals ==> (
                    #[trigger] self.gotos@[s]@[n]) == goto_of(
                        entries.take(at as int),
                        s as usize,
                        n as u32,
                    ),
            decreases total - at,
        {
            let entry: ((usize, usize, u32), usize) = match triple_map_at(&self.transitions, at) {
                Some(entry) => entry,
                None => {
                    return ;
                },
            };
            let (key, to) = entry;
            proof {
                assert(entry == entries[at as int]);
                assert(leads(self.grammar, self.states@, entries[at as int]));
                let own = self.states@[key.0 as int].items@;
                assert(all_items(self.grammar, own));
                lemma_next_symbols_fit(self.grammar, own);
                let found = next_symbols(self.grammar, own);
                let k = choose|k: int| 0 <= k < found.len() && found[k] == key_symbol(key);
                assert(symbol_fits(
                    found[k],
                    self.grammar.terminals,
                    self.grammar.non_terminals,
                ));
                assert(entries.take(at as int + 1).drop_last() =~= entries.take(at as int));
                assert(entries.take(at as int + 1).last() == entry);
            }
            let ghost before = *self;
            if key.1 == 0 {
                add_action(&mut self.actions, key.0, key.2, Action::Shift(to));
            } else if key.1 == 1 {
                set_goto(&mut self.gotos, key.0, key.2, to);
            }
            proof {
                assert forall|s: int, t: int|
                    0 <= s < self.states@.len() && 0 <= t < self.grammar.terminals implies
                    action_items(#[trigger] self.actions@[s]@[t]) == shifts_of(
                    entries.take(at as int + 1),
                    s as usize,
                    t as u32,
                ) by {
                    assert(action_items(before.actions@[s]@[t]) == shifts_of(
                        entries.take(at as int),
                        s as usize,
                        t as u32,
                    ));
                }
                assert forall|s: int, n: int|
                    0 <= s < self.states@.len() && 0 <= n < self.grammar.non_terminals implies (
                #[trigger] self.gotos@[s]@[n]) == goto_of(
                    entries.take(at as int + 1),
                    s as usize,
                    n as u32,
                ) by {
                    assert(before.gotos@[s]@[n] == goto_of(
                        entries.take(at as int),
                        s as usize,
                        n as u32,
                    ));
                }
            }
            at += 1;
        }
        assert(entries.take(at as int) =~= entries);
    }

    /// Enters what is due into the row of a state.
    fn fill_due(&mut self, state: LRStateId)
        requires
            old(self).grammar.wf(),
            old(self).sized(),
            state < old(self).states@.len(),
            all_items(old(self).grammar, old(self).states@[state as int].items@),
        ensures
            final(self).grammar == old(self).grammar,
            final(self).states == old(self).states,
            final(self).transitions == old(self).transitions,
            final(self).conflicts == old(self).conflicts,
            final(self).gotos == old(self).gotos,
            final(self).sized(),
            forall|s: int, t: int|
                0 <= s < old(self).states@.len() && 0 <= t < old(self).grammar.terminals
                    ==> action_items(#[trigger] final(self).actions@[s]@[t]) == if s == state {
                    with_due(
                        old(self).grammar,
                        action_items(old(self).actions@[s]@[t]),
                        old(self).states@[state as int].items@,
                        t as u32,
                    )
                } else {
                    action_items(old(self).actions@[s]@[t])
                },
    {
        let ghost items = self.states@[state as int].items@;
        let total: usize = self.states[state].items.len();
        let mut at: usize = 0;
        while at < total
            invariant
                at <= total,
                total == items.len(),
                self.grammar == old(self).grammar,
                self.states == old(self).states,
                self.transitions == old(self).transitions,
                self.conflicts == old(self).conflicts,
                self.gotos == old(self).gotos,
                self.grammar.wf(),
                self.sized(),
                state < self.states@.len(),
                items == self.states@[state as int].items@,
                all_items(self.grammar, items),
                forall|s: int, t: int|
                    0 <= s < old(self).states@.len() && 0 <= t < old(self).grammar.terminals
                        ==> action_items(#[trigger] self.actions@[s]@[t]) == if s == state {
                        with_due(
                            old(self).grammar,
                            action_items(old(self).actions@[s]@[t]),
                            items.take(at as int),
                            t as u32,
                        )
                    } else {
                        action_items(old(self).actions@[s]@[t])
                    },
            decreases total - at,
        {
            let item = self.states[state].items[at];
            proof {
                assert(items.take(at as int + 1).drop_last() =~= items.take(at as int));
                assert(items.take(at as int + 1).last() == item);
                assert(is_item(self.grammar, items[at as int].triple()));
            }
            let ghost before = *self;
            if self.grammar.symbol_after_dot(&item).is_none() {
                if item.production == 0 {
                    let eof: u32 = self.grammar.eof;
                    add_action(&mut self.actions, state, eof, Action::Accept);
                } else {
                    add_action(
                        &mut self.actions,
                        state,
                        item.lookahead,
                        Action::Reduce(item.production),
                    );
                }
            }
            proof {
                assert forall|s: int, t: int|
                    0 <= s < old(self).states@.len() && 0 <= t < old(self).grammar.terminals implies
                    action_items(#[trigger] self.actions@[s]@[t]) == if s == state {
                    with_due(
                        old(self).grammar,
                        action_items(old(self).actions@[s]@[t]),
                        items.take(at as int + 1),
                        t as u32,
                    )
                } else {
                    action_items(old(self).actions@[s]@[t])
                } by {
                    assert(action_items(before.actions@[s]@[t]) == if s == state {
                        with_due(
                            old(self).grammar,
                            action_items(old(self).actions@[s]@[t]),
                            items.take(at as int),
                            t as u32,
                        )
                    } else {
                        action_items(old(self).actions@[s]@[t])
                    });
                }
            }
            at += 1;
        }
        assert(items.take(at as int) =~= items);
    }

    /// Gathers the conflicts of the table.
    fn collect_conflicts(&mut self)
        requires
            old(self).sized(),
            old(self).grammar.terminals <= u32::MAX,
        ensures
            final(self).grammar == old(self).grammar,
            final(self).states == old(self).states,
            final(self).transitions == old(self).transitions,
            final(self).actions == old(self).actions,
            final(self).gotos == old(self).gotos,
            conflict_views(final(self).conflicts@) == conflicts_until(
                old(self).actions@,
                old(self).actions@.len() as int,
            ),
    {
        let mut out: Vec<Conflict> = Vec::new();
        let mut s: usize = 0;
        assert(conflict_views(out@) =~= conflicts_until(self.actions@, 0));
        while s < self.actions.len()
            invariant
                *self == *old(self),
                self.sized(),
                self.grammar.terminals <= u32::MAX,
                s <= self.actions@.len(),
                conflict_views(out@) == conflicts_until(self.actions@, s as int),
            decreases self.actions@.len() - s,
        {
            let ghost start = conflict_views(out@);
            let ghost row = self.actions@[s as int]@;
            let mut t: u32 = 0;
            assert(conflict_views(out@) =~= start + conflicts_in_row(s, row, 0));
            while (t as usize) < self.grammar.terminals
                invariant
                    *self == *old(self),
                    self.sized(),
                    self.grammar.terminals <= u32::MAX,
                    s < self.actions@.len(),
                    row == self.actions@[s as int]@,
                    t <= self.grammar.terminals,
                    conflict_views(out@) == start + conflicts_in_row(s, row, t as int),
                decreases self.grammar.terminals - t,
            {
                note_conflicts(&mut out, s, t, &self.actions[s][t as usize]);
                assert(conflict_views(out@) =~= start + conflicts_in_row(s, row, t as int + 1));
                t += 1;
            }
            s += 1;
        }
        self.conflicts = out;
    }
}

impl Grammar {
    /// The tables of the parser of a grammar.
    pub fn build_lr1(self) -> (r: Parser)
        requires
            self.wf(),
        ensures
            r.wf(),
            r.grammar == self,
    {
        let collection = self.collect_states();
        let count: usize = collection.states.len();
        let mut actions: Vec<Vec<ActionSet>> = Vec::new();
        let mut gotos: Vec<Vec<Option<usize>>> = Vec::new();
        while actions.len() < count
            invariant
                actions@.len() <= count,
                gotos@.len() == actions@.len(),
                forall|s: int|
                    0 <= s < actions@.len() ==> (#[trigger] actions@[s])@.len() == self.terminals,
                forall|s: int|
                    0 <= s < gotos@.len() ==> (#[trigger] gotos@[s])@.len() == self.non_terminals,
                forall|s: int, t: int|
                    0 <= s < actions@.len() && 0 <= t < self.terminals ==> action_items(
                        #[trigger] actions@[s]@[t],
                    ) == Seq::<Action>::empty(),
                forall|s: int, n: int|
                    0 <= s < gotos@.len() && 0 <= n < self.non_terminals ==> (
                    #[trigger] gotos@[s]@[n]) is None,
            decreases count - actions@.len(),
        {
            actions.push(empty_actions(self.terminals));
            gotos.push(empty_gotos(self.non_terminals));
        }
        let ghost entries = map_entries(collection.transitions);
        let ghost states = collection.states@;
        let mut parser = Parser {
            grammar: self,
            states: collection.states,
            transitions: collection.transitions,
            conflicts: Vec::new(),
            actions,
            gotos,
        };
        parser.fill_moves();
        let ghost moved = parser;
        let mut s: usize = 0;
        while s < count
            invariant
                s <= count,
                count == parser.states@.len(),
                parser.grammar == self,
                self.wf(),
                parser.states@ == states,
                map_entries(parser.transitions) == entries,
                canonical(self, states, entries),
                parser.sized(),
                parser.gotos == moved.gotos,
                forall|q: int, t: int|
                    0 <= q < count && 0 <= t < self.terminals ==> action_items(
                        #[trigger] parser.actions@[q]@[t],
                    ) == if q < s {
                        actions_of(self, states, entries, q as usize, t as u32)
                    } else {
                        shifts_of(entries, q as usize, t as u32)
                    },
            decreases count - s,
        {
            let ghost before = parser;
            assert(all_items(self, states[s as int].items@));
            parser.fill_due(s);
            proof {
                assert forall|q: int, t: int|
                    0 <= q < count && 0 <= t < self.terminals implies action_items(
                    #[trigger] parser.actions@[q]@[t],
                ) == if q < s + 1 {
                    actions_of(self, states, entries, q as usize, t as u32)
                } else {
                    shifts_of(entries, q as usize, t as u32)
                } by {
                    assert(action_items(before.actions@[q]@[t]) == if q < s {
                        actions_of(self, states, entries, q as usize, t as u32)
                    } else {
                        shifts_of(entries, q as usize, t as u32)
                    });
                }
            }
            s += 1;
        }
        parser.collect_conflicts();
        proof {
            assert forall|q: usize, t: TerminalId|
                q < parser.states@.len() && t < parser.grammar.terminals implies
                #[trigger] parser.actions_at(q, t) == actions_of(
                parser.grammar,
                parser.states@,
                map_entries(parser.transitions),
                q,
                t,
            ) by {
                assert(action_items(parser.actions@[q as int]@[t as int]) == actions_of(
                    self,
                    states,
                    entries,
                    q as int as usize,
                    t as int as u32,
                ));
            }
            assert forall|q: usize, n: NonTerminalId|
                q < parser.states@.len() && n < parser.grammar.non_terminals implies
                #[trigger] parser.goto_at(q, n) == goto_of(
                map_entries(parser.transitions),
                q,
                n,
            ) by {
                assert(moved.gotos@[q as int]@[n as int] == goto_of(
                    entries,
                    q as int as usize,
                    n as int as u32,
                ));
            }
        }
        parser
    }
}

/// What a table holds comes from the grammar: a shift leads to the state after
/// the terminal, a reduction has a complete item, and nothing else occurs.
pub proof fn lemma_actions_sound(parser: Parser, state: usize, terminal: TerminalId, action: Action)
    requires
        parser.wf(),
        state < parser.states@.len(),
        terminal < parser.grammar.terminals,
        parser.actions_at(state, terminal).contains(action),
    ensures
        match action {
            Action::Shift(to) => to < parser.states@.len() && is_closure(
                parser.grammar,
                parser.states@[to as int].items@,
                triples(
                    moved_items(
                        parser.grammar,
                        parser.states@[state as int].items@,
                        Symbol::T(terminal),
                    ),
                ).to_set(),
            ),
            Action::Reduce(production) => exists|i: int|
                0 <= i < parser.states@[state as int].items@.len() && due(
                    parser.grammar,
                    #[trigger] parser.states@[state as int].items@[i],
                ) == Some((terminal, Action::Reduce(production))),
            Action::Accept => terminal == parser.grammar.eof,
            Action::Error => false,
        },
{
    let entries = map_entries(parser.transitions);
    let items = parser.states@[state as int].items@;
    lemma_due_sound(
        parser.grammar,
        shifts_of(entries, state, terminal),
        items,
        terminal,
        action,
    );
    if shifts_of(entries, state, terminal).contains(action) {
        lemma_shifts_sound(entries, state, terminal, action);
        let i = choose|i: int|
            0 <= i < entries.len() && (#[trigger] entries[i]).0 == move_key(
                state,
                Symbol::T(terminal),
            ) && action == Action::Shift(entries[i].1);
        assert(leads(parser.grammar, parser.states@, entries[i]));
        assert(key_symbol(entries[i].0) == Symbol::T(terminal));
    }
}

proof fn lemma_with_action(actions: Seq<Action>, added: Action, action: Action)
    requires
        with_action(actions, added).contains(action),
    ensures
        actions.contains(action) || action == added,
{
    if !actions.contains(added) {
        let k = choose|k: int|
            0 <= k < actions.push(added).len() && actions.push(added)[k] == action;
        if k < actions.len() {
            assert(actions[k] == action);
        }
    }
}

proof fn lemma_shifts_sound(
    entries: Seq<(Triple, usize)>,
    state: usize,
    terminal: TerminalId,
    action: Action,
)
    requires
        shifts_of(entries, state, terminal).contains(action),
    ensures
        exists|i: int|
            0 <= i < entries.len() && (#[trigger] entries[i]).0 == move_key(
                state,
                Symbol::T(terminal),
            ) && action == Action::Shift(entries[i].1),
    decreases entries.len(),
{
    if entries.len() > 0 {
        let front = entries.drop_last();
        let last = entries.len() - 1;
        let before = shifts_of(front, state, terminal);
        if entries[last].0 == move_key(state, Symbol::T(terminal)) {
            lemma_with_action(before, Action::Shift(entries[last].1), action);
        }
        if before.contains(action) {
            lemma_shifts_sound(front, state, terminal, action);
            let i = choose|i: int|
                0 <= i < front.len() && (#[trigger] front[i]).0 == move_key(
                    state,
                    Symbol::T(terminal),
                ) && action == Action::Shift(front[i].1);
            assert(entries[i] == front[i]);
        }
    }
}

proof fn lemma_due_sound(
    g: Grammar,
    actions: Seq<Action>,
    items: Seq<LR1Item>,
    terminal: TerminalId,
    action: Action,
)
    requires
        with_due(g, actions, items, terminal).contains(action),
    ensures
        actions.contains(action) || exists|i: int|
            0 <= i < items.len() && due(g, #[trigger] items[i]) == Some((terminal, action)),
    decreases items.len(),
{
    if items.len() > 0 {
        let front = items.drop_last();
        let last = items.len() - 1;
        let before = with_due(g, actions, front, terminal);
        if let Some(found) = due(g, items[last]) {
            if found.0 == terminal {
                lemma_with_action(before, found.1, action);
                if action == found.1 {
                    assert(due(g, items[last]) == Some((terminal, action)));
                }
            }
        }
        if before.contains(action) {
            lemma_due_sound(g, actions, front, terminal, action);
            if !actions.contains(action) {
                let i = choose|i: int|
                    0 <= i < front.len() && due(g, #[trigger] front[i]) == Some((terminal, action));
                assert(items[i] == front[i]);
            }
        }
    }
}


/// A state after a nonterminal is a state.
pub proof fn lemma_goto_fits(parser: Parser, state: usize, non_terminal: NonTerminalId)
    requires
        parser.wf(),
        state < parser.states@.len(),
        non_terminal < parser.grammar.non_terminals,
        parser.goto_at(state, non_terminal) is Some,
    ensures
        parser.goto_at(state, non_terminal)->Some_0 < parser.states@.len(),
{
    let entries = map_entries(parser.transitions);
    lemma_goto_entry(entries, state, non_terminal);
    let i = choose|i: int|
        0 <= i < entries.len() && goto_of(entries, state, non_terminal) == Some(
            (#[trigger] entries[i]).1,
        );
    assert(leads(parser.grammar, parser.states@, entries[i]));
}

proof fn lemma_goto_entry(entries: Seq<(Triple, usize)>, state: usize, non_terminal: NonTerminalId)
    requires
        goto_of(entries, state, non_terminal) is Some,
    ensures
        exists|i: int|
            0 <= i < entries.len() && goto_of(entries, state, non_terminal) == Some(
                (#[trigger] entries[i]).1,
            ),
    decreases entries.len(),
{
    let last = entries.len() - 1;
    if entries[last].0 == move_key(state, Symbol::N(non_terminal)) {
        assert(goto_of(entries, state, non_terminal) == Some(entries[last].1));
    } else {
        let front = entries.drop_last();
        lemma_goto_entry(front, state, non_terminal);
        let i = choose|i: int|
            0 <= i < front.len() && goto_of(front, state, non_terminal) == Some(
                (#[trigger] front[i]).1,
            );
        assert(entries[i] == front[i]);
    }
}

/// A production by which is reduced is one of the grammar.
pub proof fn lemma_reduce_fits(
    parser: Parser,
    state: usize,
    terminal: TerminalId,
    production: ProductionId,
)
    requires
        parser.wf(),
        state < parser.states@.len(),
        terminal < parser.grammar.terminals,
        parser.actions_at(state, terminal).contains(Action::Reduce(production)),
    ensures
        production < parser.grammar.productions@.len(),
{
    lemma_actions_sound(parser, state, terminal, Action::Reduce(production));
    let items = parser.states@[state as int].items@;
    let i = choose|i: int|
        0 <= i < items.len() && due(parser.grammar, #[trigger] items[i]) == Some(
            (terminal, Action::Reduce(production)),
        );
    assert(all_items(parser.grammar, items));
    assert(is_item(parser.grammar, items[i].triple()));
}

/// A state that is shifted to is a state.
pub proof fn lemma_shift_fits(
    parser: Parser,
    state: usize,
    terminal: TerminalId,
    to: LRStateId,
)
    requires
        parser.wf(),
        state < parser.states@.len(),
        terminal < parser.grammar.terminals,
        parser.actions_at(state, terminal).contains(Action::Shift(to)),
    ensures
        to < parser.states@.len(),
{
    lemma_actions_sound(parser, state, terminal, Action::Shift(to));
}

} // verus!
