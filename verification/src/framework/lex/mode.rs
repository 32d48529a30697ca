//! Stacks of lexer states.

use std::sync::Arc;

use vstd::prelude::*;

use crate::framework::lex::context::SlotStore;

verus! {

/// One open lexer state, with what it remembers.
#[derive(Debug)]
pub struct State {
    pub id: usize,
    pub slots: SlotStore,
}

/// What an open lexer state is.
#[verifier::ext_equal]
pub ghost struct StateView {
    pub id: usize,
    pub slots: Seq<Option<u64>>,
}

impl View for State {
    type V = StateView;

    open spec fn view(&self) -> StateView {
        StateView { id: self.id, slots: self.slots@ }
    }
}

/// What open lexer states are.
pub open spec fn stack_view(stack: Seq<State>) -> Seq<StateView> {
    Seq::new(stack.len(), |i: int| stack[i]@)
}

impl State {
    /// Whether two states are the same.
    pub fn same(&self, other: &Self) -> (r: bool)
        ensures
            r == (self@ == other@),
    {
        let r = self.id == other.id && self.slots.same(&other.slots);
        assert(r ==> self@ =~= other@);
        r
    }

    /// A copy.
    pub fn copied(&self) -> (r: Self)
        ensures
            r@ == self@,
    {
        State { id: self.id, slots: self.slots.copied() }
    }
}

fn copy_stack(stack: &Vec<State>) -> (r: Vec<State>)
    ensures
        stack_view(r@) == stack_view(stack@),
{
    let mut out: Vec<State> = Vec::new();
    let mut at: usize = 0;
    while at < stack.len()
        invariant
            at <= stack@.len(),
            out@.len() == at,
            forall|i: int| 0 <= i < at ==> (#[trigger] out@[i])@ == stack@[i]@,
        decreases stack@.len() - at,
    {
        out.push(stack[at].copied());
        at += 1;
    }
    assert(stack_view(out@) =~= stack_view(stack@));
    out
}

/// Where a lexer stands: a place in the text, and the open states.
#[derive(Debug)]
pub struct LexerState {
    pub offset: usize,
    pub state_stack: Vec<State>,
}

impl LexerState {
    /// The start of the text, with one open state.
    pub fn new(root: State) -> (r: Self)
        ensures
            r.offset == 0,
            stack_view(r.state_stack@) == seq![root@],
    {
        let ghost first = root@;
        let mut state_stack: Vec<State> = Vec::new();
        state_stack.push(root);
        assert(stack_view(state_stack@) =~= seq![first]);
        LexerState { offset: 0, state_stack }
    }
}

/// Open lexer states without a place: at different places they are the same.
#[derive(Debug)]
pub struct CanonicalLexerState {
    stack: Vec<State>,
}

impl View for CanonicalLexerState {
    type V = Seq<StateView>;

    closed spec fn view(&self) -> Seq<StateView> {
        stack_view(self.stack@)
    }
}

impl CanonicalLexerState {
    /// The open states at a place.
    pub fn from_state(state: &LexerState) -> (r: Self)
        ensures
            r@ == stack_view(state.state_stack@),
    {
        CanonicalLexerState { stack: copy_stack(&state.state_stack) }
    }

    /// The same open states at a place.
    pub fn materialize(&self, offset: usize) -> (r: LexerState)
        ensures
            r.offset == offset,
            stack_view(r.state_stack@) == self@,
    {
        LexerState { offset, state_stack: copy_stack(&self.stack) }
    }

    /// Whether the open states are the same.
    pub fn same(&self, other: &Self) -> (r: bool)
        ensures
            r == (self@ == other@),
    {
        if self.stack.len() != other.stack.len() {
            assert(self@.len() != other@.len());
            return false;
        }
        let mut at: usize = 0;
        while at < self.stack.len()
            invariant
                at <= self.stack@.len(),
                self.stack@.len() == other.stack@.len(),
                forall|i: int| 0 <= i < at ==> self@[i] == other@[i],
            decreases self.stack@.len() - at,
        {
            if !self.stack[at].same(&other.stack[at]) {
                assert(self@[at as int] != other@[at as int]);
                return false;
            }
            at += 1;
        }
        assert(self@ =~= other@);
        true
    }
}

/// Open lexer states do not depend on the place: taken to another place and
/// back they are the same.
pub proof fn lemma_canonical_round_trip(stack: Seq<State>, again: Seq<State>)
    requires
        stack_view(again) == stack_view(stack),
    ensures
        again.len() == stack.len(),
        forall|i: int| 0 <= i < stack.len() ==> (#[trigger] again[i])@ == stack[i]@,
{
    assert(stack_view(again).len() == again.len());
    assert(stack_view(stack).len() == stack.len());
    assert forall|i: int| 0 <= i < stack.len() implies (#[trigger] again[i])@ == stack[i]@ by {
        assert(stack_view(again)[i] == stack_view(stack)[i]);
    }
}

/// Open lexer states, each held once.
pub struct LexerStateInterner {
    known: Vec<Arc<CanonicalLexerState>>,
}

impl LexerStateInterner {
    /// What is held.
    pub closed spec fn held(self) -> Seq<Seq<StateView>> {
        Seq::new(self.known@.len(), |i: int| self.known@[i]@)
    }

    /// Nothing held.
    pub fn new() -> (r: Self)
        ensures
            r.held() == Seq::<Seq<StateView>>::empty(),
    {
        let r = LexerStateInterner { known: Vec::new() };
        assert(r.held() =~= Seq::<Seq<StateView>>::empty());
        r
    }

    /// The open states at a place, held from now on.
    pub fn intern(&mut self, state: &LexerState) -> (r: Arc<CanonicalLexerState>)
        ensures
            r@ == stack_view(state.state_stack@),
            final(self).held() == if old(self).held().contains(r@) {
                old(self).held()
            } else {
                old(self).held().push(r@)
            },
    {
        let canonical = CanonicalLexerState::from_state(state);
        let mut at: usize = 0;
        while at < self.known.len()
            invariant
                at <= self.known@.len(),
                *self == *old(self),
                canonical@ == stack_view(state.state_stack@),
                forall|i: int| 0 <= i < at ==> self.held()[i] != canonical@,
            decreases self.known@.len() - at,
        {
            if self.known[at].same(&canonical) {
                assert(self.held()[at as int] == canonical@);
                return Arc::clone(&self.known[at]);
            }
            at += 1;
        }
        assert(!self.held().contains(canonical@));
        let shared = Arc::new(canonical);
        self.known.push(Arc::clone(&shared));
        assert(self.held() =~= old(self).held().push(shared@));
        shared
    }
}

/// What a token does to the open states.
#[derive(Clone, Copy, Debug, PartialEq, Eq, Structural)]
pub enum TokenAction {
    /// They stay as they are.
    Stay,
    Enter { next: usize },
    Exit,
}

/// A lexer state of a language.
#[derive(Clone, Debug)]
pub struct StateInfo {
    pub name: String,
    pub state_key: String,
}

} // verus!
