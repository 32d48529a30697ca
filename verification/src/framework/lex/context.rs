//! What lexer states remember, and what hooks of a lexer see of it.

use vstd::prelude::*;

verus! {

/// A place in which a lexer state remembers a value. Values are numbers that
/// the language gives a meaning.
#[derive(Clone, Copy, Debug, PartialEq, Eq, Hash, Structural)]
pub struct Slot {
    index: usize,
}

impl Slot {
    /// The number of the place.
    pub closed spec fn place(self) -> usize {
        self.index
    }

    /// The place with a number.
    pub fn new(index: usize) -> (r: Self)
        ensures
            r.place() == index,
    {
        Slot { index }
    }

    /// The number of the place.
    pub fn index(self) -> (r: usize)
        ensures
            r == self.place(),
    {
        self.index
    }
}

/// What one lexer state remembers.
#[derive(Debug)]
pub struct SlotStore {
    values: Vec<Option<u64>>,
}

impl View for SlotStore {
    type V = Seq<Option<u64>>;

    closed spec fn view(&self) -> Seq<Option<u64>> {
        self.values@
    }
}

/// The value at a place; none where the place is empty or there is no such
/// place.
pub open spec fn slot_value(v: Seq<Option<u64>>, slot: Slot) -> Option<u64> {
    if slot.place() < v.len() {
        v[slot.place() as int]
    } else {
        None
    }
}

/// The values with one place filled or emptied. A place that is not there is
/// left alone.
pub open spec fn with_slot(v: Seq<Option<u64>>, slot: Slot, value: Option<u64>) -> Seq<Option<u64>> {
    if slot.place() < v.len() {
        v.update(slot.place() as int, value)
    } else {
        v
    }
}

impl SlotStore {
    /// Empty places.
    pub fn new(count: usize) -> (r: Self)
        ensures
            r@ == Seq::new(count as nat, |i: int| None::<u64>),
    {
        let mut values: Vec<Option<u64>> = Vec::new();
        let mut at: usize = 0;
        while at < count
            invariant
                at <= count,
                values@ == Seq::new(at as nat, |i: int| None::<u64>),
            decreases count - at,
        {
            values.push(None);
            at += 1;
            assert(values@ =~= Seq::new(at as nat, |i: int| None::<u64>));
        }
        SlotStore { values }
    }

    /// The value at a place.
    pub fn get(&self, slot: Slot) -> (r: Option<u64>)
        ensures
            r == slot_value(self@, slot),
    {
        if slot.index < self.values.len() {
            self.values[slot.index]
        } else {
            None
        }
    }

    /// Fills a place.
    pub fn set(&mut self, slot: Slot, value: u64)
        ensures
            final(self)@ == with_slot(old(self)@, slot, Some(value)),
    {
        if slot.index < self.values.len() {
            self.values.set(slot.index, Some(value));
        }
    }

    /// Empties a place.
    pub fn remove(&mut self, slot: Slot)
        ensures
            final(self)@ == with_slot(old(self)@, slot, None),
    {
        if slot.index < self.values.len() {
            self.values.set(slot.index, None);
        }
    }

    /// Whether two states remember the same.
    pub fn same(&self, other: &Self) -> (r: bool)
        ensures
            r == (self@ == other@),
    {
        if self.values.len() != other.values.len() {
            return false;
        }
        let mut at: usize = 0;
        while at < self.values.len()
            invariant
                at <= self.values@.len(),
                self.values@.len() == other.values@.len(),
                forall|i: int| 0 <= i < at ==> self.values@[i] == other.values@[i],
            decreases self.values@.len() - at,
        {
            let alike = match (self.values[at], other.values[at]) {
                (Some(a), Some(b)) => a == b,
                (None, None) => true,
                _ => false,
            };
            if !alike {
                return false;
            }
            at += 1;
        }
        assert(self@ =~= other@);
        true
    }

    /// A copy.
    pub fn copied(&self) -> (r: Self)
        ensures
            r@ == self@,
    {
        let mut values: Vec<Option<u64>> = Vec::new();
        let mut at: usize = 0;
        while at < self.values.len()
            invariant
                at <= self.values@.len(),
                values@ == self.values@.take(at as int),
            decreases self.values@.len() - at,
        {
            values.push(self.values[at]);
            at += 1;
            assert(values@ =~= self.values@.take(at as int));
        }
        assert(values@ =~= self.values@);
        SlotStore { values }
    }
}

/// What is written is read back, and the other places stay as they were.
pub proof fn lemma_slot_read_back(v: Seq<Option<u64>>, slot: Slot, value: Option<u64>, other: Slot)
    requires
        slot.place() < v.len(),
    ensures
        slot_value(with_slot(v, slot, value), slot) == value,
        other.place() != slot.place() ==> slot_value(with_slot(v, slot, value), other)
            == slot_value(v, other),
{
}

/// When a hook runs.
#[derive(Clone, Copy, Debug, PartialEq, Eq, Hash, Structural)]
pub enum LexMoment {
    Normal,
    Eof,
}

/// What a guard sees.
pub struct WhenCx<'a> {
    pub lexeme_text: &'a str,
    pub at_moment: LexMoment,
    pub at_depth: usize,
    pub current: &'a SlotStore,
    pub parent: Option<&'a SlotStore>,
}

impl<'a> WhenCx<'a> {
    pub fn new(
        lexeme: &'a str,
        moment: LexMoment,
        depth: usize,
        current: &'a SlotStore,
        parent: Option<&'a SlotStore>,
    ) -> (r: Self)
        ensures
            r.lexeme_text == lexeme,
            r.at_moment == moment,
            r.at_depth == depth,
            r.current == current,
            r.parent == parent,
    {
        WhenCx { lexeme_text: lexeme, at_moment: moment, at_depth: depth, current, parent }
    }

    /// The text of the token.
    pub fn lexeme(&self) -> (r: &str)
        ensures
            r@ == self.lexeme_text@,
    {
        self.lexeme_text
    }

    pub fn moment(&self) -> (r: LexMoment)
        ensures
            r == self.at_moment,
    {
        self.at_moment
    }

    /// How many states are open.
    pub fn depth(&self) -> (r: usize)
        ensures
            r == self.at_depth,
    {
        self.at_depth
    }

    /// What the current state remembers.
    pub fn get(&self, slot: Slot) -> (r: Option<u64>)
        ensures
            r == slot_value(self.current@, slot),
    {
        self.current.get(slot)
    }

    /// What the state below remembers.
    pub fn parent_get(&self, slot: Slot) -> (r: Option<u64>)
        ensures
            r == (match self.parent {
                Some(parent) => slot_value(parent@, slot),
                None => None,
            }),
    {
        match self.parent {
            Some(parent) => parent.get(slot),
            None => None,
        }
    }
}

/// What a hook sees that may change what the next state remembers.
pub struct WithCx<'a> {
    pub lexeme_text: &'a str,
    pub at_moment: LexMoment,
    pub at_depth: usize,
    pub target: SlotStore,
    pub source: SlotStore,
    pub parent: Option<SlotStore>,
}

impl<'a> WithCx<'a> {
    pub fn new(
        lexeme: &'a str,
        moment: LexMoment,
        depth: usize,
        target: SlotStore,
        source: SlotStore,
        parent: Option<SlotStore>,
    ) -> (r: Self)
        ensures
            r.lexeme_text == lexeme,
            r.at_moment == moment,
            r.at_depth == depth,
            r.target == target,
            r.source == source,
            r.parent == parent,
    {
        WithCx { lexeme_text: lexeme, at_moment: moment, at_depth: depth, target, source, parent }
    }

    /// The text of the token.
    pub fn lexeme(&self) -> (r: &str)
        ensures
            r@ == self.lexeme_text@,
    {
        self.lexeme_text
    }

    pub fn moment(&self) -> (r: LexMoment)
        ensures
            r == self.at_moment,
    {
        self.at_moment
    }

    /// How many states are open.
    pub fn depth(&self) -> (r: usize)
        ensures
            r == self.at_depth,
    {
        self.at_depth
    }

    /// What the next state remembers.
    pub fn get(&self, slot: Slot) -> (r: Option<u64>)
        ensures
            r == slot_value(self.target@, slot),
    {
        self.target.get(slot)
    }

    /// Lets the next state remember a value.
    pub fn set(&mut self, slot: Slot, value: u64)
        ensures
            final(self).target@ == with_slot(old(self).target@, slot, Some(value)),
            final(self).source == old(self).source,
            final(self).parent == old(self).parent,
            final(self).lexeme_text == old(self).lexeme_text,
            final(self).at_moment == old(self).at_moment,
            final(self).at_depth == old(self).at_depth,
    {
        self.target.set(slot, value);
    }

    /// Lets the next state forget a value.
    pub fn remove(&mut self, slot: Slot)
        ensures
            final(self).target@ == with_slot(old(self).target@, slot, None),
            final(self).source == old(self).source,
            final(self).parent == old(self).parent,
            final(self).lexeme_text == old(self).lexeme_text,
            final(self).at_moment == old(self).at_moment,
            final(self).at_depth == old(self).at_depth,
    {
        self.target.remove(slot);
    }

    /// What the state that is left remembers.
    pub fn source_get(&self, slot: Slot) -> (r: Option<u64>)
        ensures
            r == slot_value(self.source@, slot),
    {
        self.source.get(slot)
    }

    /// What the state below remembers.
    pub fn parent_get(&self, slot: Slot) -> (r: Option<u64>)
        ensures
            r == (match self.parent {
                Some(parent) => slot_value(parent@, slot),
                None => None,
            }),
    {
        match &self.parent {
            Some(parent) => parent.get(slot),
            None => None,
        }
    }
}

} // verus!
