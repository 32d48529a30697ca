//! Lexical documents and the identities that they hand out.

use std::collections::hash_map::DefaultHasher;
use std::sync::Arc;

use vstd::prelude::*;
use vstd::std_specs::hash::DefaultHasherAdditionalSpecFns;
use vstd::utf8::encode_utf8;

use crate::framework::lex::mode::{
    stack_view, CanonicalLexerState, LexerState, State, StateView,
};
use crate::framework::lex::token::{LexErrorKind, LexerRoot};
use crate::framework::parse::delta::SyntheticTokenId;
use crate::framework::parse::grammar::TerminalId;
use crate::framework::parse::identity::{error_fingerprint, terminal_bytes, token_fingerprint};
use crate::framework::parse::parsing::lineage::low_bytes;
use crate::sort::Ordered;
use crate::text::{rope_chars, rope_new};
use crate::utils::{fnv1a, fnv64};

verus! {

/// The identity of one token of a document. It is never used again within the
/// document.
#[derive(Clone, Copy, Debug, PartialEq, Eq, Hash, PartialOrd, Ord, Structural)]
pub struct TokenOccurrenceId(pub u64);

/// A hash of a terminal and its value. Values are compared before a token
/// counts as the same.
#[derive(Clone, Copy, Debug, PartialEq, Eq, Hash, Structural)]
pub struct TokenFingerprint(pub u64);

/// Advances where a token that the parser sees changes in any way.
#[derive(Clone, Copy, Debug, PartialEq, Eq, Hash, Structural)]
pub struct SemanticRevisionId(pub u64);

/// The identity of a document.
#[derive(Clone, Copy, Debug, PartialEq, Eq, Hash, PartialOrd, Ord, Structural)]
pub struct StableDocumentId(pub u64);

/// Advances where a source coordinate changes.
#[derive(Clone, Copy, Debug, PartialEq, Eq, Hash, PartialOrd, Ord, Structural)]
pub struct LayoutRevisionId(pub u64);

/// Advances where the value of a kept token changes.
#[derive(Clone, Copy, Debug, PartialEq, Eq, Hash, PartialOrd, Ord, Structural)]
pub struct TokenValueRevisionId(pub u64);

/// Advances where tokens come, go, or change their terminals.
#[derive(Clone, Copy, Debug, PartialEq, Eq, Hash, PartialOrd, Ord, Structural)]
pub struct TokenStructureRevisionId(pub u64);

/// One run of tokens that took the place of another between two kept tokens.
#[derive(Debug, PartialEq, Eq)]
pub struct TapeSplice {
    pub before: Option<TokenOccurrenceId>,
    pub removed: Vec<TokenOccurrenceId>,
    pub inserted: Vec<TokenOccurrenceId>,
    pub after: Option<TokenOccurrenceId>,
}

/// What an edit did to the tokens that the parser sees. The three lists are in
/// ascending order and have nothing in common.
#[derive(Debug, PartialEq, Eq)]
pub struct TokenPatch {
    pub old_structure: TokenStructureRevisionId,
    pub new_structure: TokenStructureRevisionId,
    pub order_splices: Vec<TapeSplice>,
    pub inserted: Vec<TokenOccurrenceId>,
    pub updated: Vec<TokenOccurrenceId>,
    pub removed: Vec<TokenOccurrenceId>,
}

impl TokenPatch {
    /// A patch that changes nothing.
    pub fn unchanged(structure: TokenStructureRevisionId) -> (r: Self)
        ensures
            r.old_structure == structure,
            r.new_structure == structure,
            r.order_splices@.len() == 0,
            r.inserted@.len() == 0,
            r.updated@.len() == 0,
            r.removed@.len() == 0,
            r.keeps_structure(),
    {
        TokenPatch {
            old_structure: structure,
            new_structure: structure,
            order_splices: Vec::new(),
            inserted: Vec::new(),
            updated: Vec::new(),
            removed: Vec::new(),
        }
    }

    /// No token came, went, or changed its place or terminal.
    pub open spec fn keeps_structure(self) -> bool {
        &&& self.order_splices@.len() == 0
        &&& self.inserted@.len() == 0
        &&& self.removed@.len() == 0
        &&& self.old_structure == self.new_structure
    }

    /// Whether no token came, went, or changed its place or terminal.
    pub fn structure_unchanged(&self) -> (r: bool)
        ensures
            r == self.keeps_structure(),
    {
        self.order_splices.len() == 0 && self.inserted.len() == 0 && self.removed.len() == 0
            && self.old_structure == self.new_structure
    }

    /// Whether nothing changed at all.
    pub fn is_empty(&self) -> (r: bool)
        ensures
            r == (self.keeps_structure() && self.updated@.len() == 0),
    {
        self.structure_unchanged() && self.updated.len() == 0
    }
}

// ---------------------------------------------------------------------------
// Tokens of a document

impl Ordered for TokenOccurrenceId {
    open spec fn le_spec(self, other: Self) -> bool {
        self.0 <= other.0
    }

    proof fn lemma_total() {
    }

    fn le_exec(&self, other: &Self) -> (r: bool) {
        self.0 <= other.0
    }
}

/// One token of a document, without its place.
pub struct LexicalOccurrence<R> {
    pub id: TokenOccurrenceId,
    pub byte_len: u32,
    pub terminal: Option<TerminalId>,
    pub skip: bool,
    pub value: Arc<R>,
    pub error: Option<LexErrorKind>,
    /// The open lexer states behind the token.
    pub state_after: Arc<CanonicalLexerState>,
}

/// What a token of a document is.
#[verifier::ext_equal]
pub ghost struct OccurrenceView<R> {
    pub id: TokenOccurrenceId,
    pub byte_len: u32,
    pub terminal: Option<TerminalId>,
    pub skip: bool,
    pub value: R,
    pub error: Option<LexErrorKind>,
    pub state_after: Seq<StateView>,
}

impl<R> View for LexicalOccurrence<R> {
    type V = OccurrenceView<R>;

    open spec fn view(&self) -> OccurrenceView<R> {
        OccurrenceView {
            id: self.id,
            byte_len: self.byte_len,
            terminal: self.terminal,
            skip: self.skip,
            value: *self.value,
            error: self.error,
            state_after: self.state_after@,
        }
    }
}

/// What tokens of a document are.
pub open spec fn occurrence_views<R>(list: Seq<LexicalOccurrence<R>>) -> Seq<OccurrenceView<R>> {
    Seq::new(list.len(), |i: int| list[i]@)
}

/// The parser sees a token: it is an error, or it is kept and has a terminal.
pub open spec fn semantic<R>(token: OccurrenceView<R>) -> bool {
    token.error is Some || (!token.skip && token.terminal is Some)
}

/// Two tokens are the same to the parser, but for their identities.
pub open spec fn same_structure<R>(a: OccurrenceView<R>, b: OccurrenceView<R>) -> bool {
    a.terminal == b.terminal && a.skip == b.skip && (a.error is Some) == (b.error is Some)
}

/// Two tokens are the same, but for their identities and the states behind
/// them.
pub open spec fn same_payload<R>(a: OccurrenceView<R>, b: OccurrenceView<R>) -> bool {
    &&& a.byte_len == b.byte_len
    &&& a.value == b.value
    &&& a.error == b.error
    &&& a.terminal == b.terminal
    &&& a.skip == b.skip
}

/// A token without its identity.
pub open spec fn nameless<R>(token: OccurrenceView<R>) -> OccurrenceView<R> {
    OccurrenceView { id: TokenOccurrenceId(0), ..token }
}

/// The bytes that tell a kind of error apart.
pub open spec fn error_bytes(kind: LexErrorKind) -> Seq<u8> {
    match kind {
        LexErrorKind::UnexpectedInput => seq![0u8],
        LexErrorKind::RequiredBoundary => seq![1u8],
    }
}

/// The fingerprint of a token.
pub open spec fn fingerprint_of<R: LexerRoot>(token: OccurrenceView<R>) -> u64 {
    match token.error {
        Some(kind) => DefaultHasher::spec_finish(
            seq![seq![1u8], error_bytes(kind), low_bytes(token.byte_len as u64)],
        ),
        None => DefaultHasher::spec_finish(
            seq![
                terminal_bytes(token.terminal),
                token.value.hashed(),
                low_bytes(token.byte_len as u64),
            ],
        ),
    }
}

fn same_error(a: Option<LexErrorKind>, b: Option<LexErrorKind>) -> (r: bool)
    ensures
        r == (a == b),
{
    match (a, b) {
        (Some(a), Some(b)) => a == b,
        (None, None) => true,
        _ => false,
    }
}

fn same_terminal(a: Option<TerminalId>, b: Option<TerminalId>) -> (r: bool)
    ensures
        r == (a == b),
{
    match (a, b) {
        (Some(a), Some(b)) => a == b,
        (None, None) => true,
        _ => false,
    }
}

impl<R: LexerRoot> LexicalOccurrence<R> {
    /// Whether the parser sees the token.
    pub fn is_semantic(&self) -> (r: bool)
        ensures
            r == semantic(self@),
    {
        self.error.is_some() || (!self.skip && self.terminal.is_some())
    }

    /// The terminal as a number; the greatest one where there is none.
    pub fn terminal_key(&self) -> (r: usize)
        ensures
            r == (match self.terminal {
                Some(terminal) => terminal as usize,
                None => usize::MAX,
            }),
    {
        match self.terminal {
            Some(terminal) => terminal as usize,
            None => usize::MAX,
        }
    }

    /// The fingerprint of the token.
    pub fn fingerprint(&self) -> (r: TokenFingerprint)
        ensures
            r.0 == fingerprint_of(self@),
    {
        let width: usize = self.byte_len as usize;
        let value: u64 = match self.error {
            Some(kind) => {
                let tag: [u8; 1] = match kind {
                    LexErrorKind::UnexpectedInput => [0],
                    LexErrorKind::RequiredBoundary => [1],
                };
                assert(tag@ =~= error_bytes(kind));
                error_fingerprint(&tag, width)
            },
            None => {
                let bytes = self.value.hash_bytes();
                token_fingerprint(self.terminal, bytes.as_slice(), width)
            },
        };
        TokenFingerprint(value)
    }

    /// Whether two tokens are the same to the parser, but for their identities.
    pub fn structural_eq(&self, other: &Self) -> (r: bool)
        ensures
            r == same_structure(self@, other@),
    {
        same_terminal(self.terminal, other.terminal) && self.skip == other.skip
            && self.error.is_some() == other.error.is_some()
    }

    /// Whether two tokens are the same, but for their identities and the states
    /// behind them.
    pub fn exact_payload_eq(&self, other: &Self) -> (r: bool)
        ensures
            r == same_payload(self@, other@),
    {
        self.byte_len == other.byte_len && self.value.same(&other.value) && same_error(
            self.error,
            other.error,
        ) && same_terminal(self.terminal, other.terminal) && self.skip == other.skip
    }

    /// Whether two tokens are the same, but for their identities.
    pub fn exact_segment_eq(&self, other: &Self) -> (r: bool)
        ensures
            r == (nameless(self@) == nameless(other@)),
    {
        let r = self.exact_payload_eq(other) && self.state_after.same(&other.state_after);
        assert(r ==> nameless(self@) =~= nameless(other@));
        r
    }

    /// A copy that shares its value and states.
    pub fn copied(&self) -> (r: Self)
        ensures
            r@ == self@,
    {
        LexicalOccurrence {
            id: self.id,
            byte_len: self.byte_len,
            terminal: self.terminal,
            skip: self.skip,
            value: Arc::clone(&self.value),
            error: self.error,
            state_after: Arc::clone(&self.state_after),
        }
    }
}

/// What the parser sees of a token.
#[derive(Clone, Copy, Debug, PartialEq, Eq, Structural)]
pub struct ParseTokenRef {
    pub occurrence: TokenOccurrenceId,
    pub terminal: Option<TerminalId>,
    pub error: bool,
}

/// What the parser sees of a token.
pub open spec fn parse_token<R>(token: OccurrenceView<R>) -> ParseTokenRef {
    ParseTokenRef { occurrence: token.id, terminal: token.terminal, error: token.error is Some }
}

/// What the parser sees of tokens.
pub open spec fn parse_tokens<R>(list: Seq<OccurrenceView<R>>) -> Seq<ParseTokenRef>
    decreases list.len(),
{
    if list.len() == 0 {
        Seq::empty()
    } else if semantic(list.last()) {
        parse_tokens(list.drop_last()).push(parse_token(list.last()))
    } else {
        parse_tokens(list.drop_last())
    }
}

/// What editors see of a token.
#[derive(Clone, Copy, Debug, PartialEq, Eq, Structural)]
pub struct TokenLayoutEntry {
    pub occurrence: TokenOccurrenceId,
    pub byte_len: u32,
    pub terminal: Option<TerminalId>,
    pub skip: bool,
    pub error: bool,
    pub fingerprint: TokenFingerprint,
}

/// What editors see of a token.
pub open spec fn layout_entry<R: LexerRoot>(token: OccurrenceView<R>) -> TokenLayoutEntry {
    TokenLayoutEntry {
        occurrence: token.id,
        byte_len: token.byte_len,
        terminal: token.terminal,
        skip: token.skip,
        error: token.error is Some,
        fingerprint: TokenFingerprint(fingerprint_of(token)),
    }
}

/// What editors see of tokens.
pub open spec fn layout_entries<R: LexerRoot>(list: Seq<OccurrenceView<R>>) -> Seq<
    TokenLayoutEntry,
> {
    Seq::new(list.len(), |i: int| layout_entry(list[i]))
}

/// The length of tokens in the text.
pub open spec fn bytes_of<R>(list: Seq<OccurrenceView<R>>) -> nat
    decreases list.len(),
{
    if list.len() == 0 {
        0
    } else {
        bytes_of(list.drop_last()) + list.last().byte_len as nat
    }
}

/// Where the token at a rank starts; behind the last token, where it ends.
pub open spec fn start_of<R>(list: Seq<OccurrenceView<R>>, rank: int) -> nat {
    bytes_of(list.take(if rank < list.len() { rank } else { list.len() as int }))
}

/// The rank of the first token that reaches beyond a byte; the number of tokens
/// where none does.
pub open spec fn rank_at<R>(list: Seq<OccurrenceView<R>>, byte: int) -> int
    decreases list.len(),
{
    if list.len() == 0 {
        0
    } else if bytes_of(list.drop_last()) > byte {
        rank_at(list.drop_last(), byte)
    } else if bytes_of(list) > byte {
        list.len() - 1
    } else {
        list.len() as int
    }
}

/// The parser sees the tokens of two lists one after the other.
pub proof fn lemma_parse_tokens_join<R>(a: Seq<OccurrenceView<R>>, b: Seq<OccurrenceView<R>>)
    ensures
        parse_tokens(a + b) == parse_tokens(a) + parse_tokens(b),
    decreases b.len(),
{
    if b.len() == 0 {
        assert(a + b =~= a);
        assert(parse_tokens(a) + parse_tokens(b) =~= parse_tokens(a));
    } else {
        lemma_parse_tokens_join(a, b.drop_last());
        assert((a + b).drop_last() =~= a + b.drop_last());
        assert((a + b).last() == b.last());
        if semantic(b.last()) {
            assert(parse_tokens(a) + parse_tokens(b) =~= (parse_tokens(a) + parse_tokens(
                b.drop_last(),
            )).push(parse_token(b.last())));
        }
    }
}

/// The lengths of two lists add up.
pub proof fn lemma_bytes_join<R>(a: Seq<OccurrenceView<R>>, b: Seq<OccurrenceView<R>>)
    ensures
        bytes_of(a + b) == bytes_of(a) + bytes_of(b),
    decreases b.len(),
{
    if b.len() == 0 {
        assert(a + b =~= a);
    } else {
        lemma_bytes_join(a, b.drop_last());
        assert((a + b).drop_last() =~= a + b.drop_last());
    }
}

/// The start of a later token is no smaller.
pub proof fn lemma_start_grows<R>(list: Seq<OccurrenceView<R>>, i: int, j: int)
    requires
        0 <= i <= j <= list.len(),
    ensures
        bytes_of(list.take(i)) <= bytes_of(list.take(j)),
        bytes_of(list.take(j)) <= bytes_of(list),
{
    assert(list.take(j) =~= list.take(i) + list.subrange(i, j));
    lemma_bytes_join(list.take(i), list.subrange(i, j));
    assert(list =~= list.take(j) + list.skip(j));
    lemma_bytes_join(list.take(j), list.skip(j));
}

/// What the rank of a byte is: all tokens before it end at or before the byte,
/// and it reaches beyond the byte.
pub proof fn lemma_rank_at<R>(list: Seq<OccurrenceView<R>>, byte: int)
    requires
        byte >= 0,
    ensures
        0 <= rank_at(list, byte) <= list.len(),
        bytes_of(list.take(rank_at(list, byte))) <= byte,
        rank_at(list, byte) < list.len() ==> bytes_of(list.take(rank_at(list, byte) + 1)) > byte,
    decreases list.len(),
{
    if list.len() > 0 {
        let rest = list.drop_last();
        lemma_rank_at(rest, byte);
        let rank = rank_at(list, byte);
        assert(list.take(list.len() as int) =~= list);
        assert(list.take(list.len() - 1) =~= rest);
        if bytes_of(rest) > byte {
            assert(rank_at(rest, byte) < rest.len()) by {
                assert(rest.take(rest.len() as int) =~= rest);
            }
            assert(list.take(rank) =~= rest.take(rank));
            assert(list.take(rank + 1) =~= rest.take(rank + 1));
        }
    }
}

/// The tokens of one document.
pub struct LexicalDocument<R> {
    pub document: StableDocumentId,
    pub source: ropey::Rope,
    pub lexical: Vec<LexicalOccurrence<R>>,
    pub layout: Vec<TokenLayoutEntry>,
    pub semantic: Vec<ParseTokenRef>,
    pub initial_state: Arc<CanonicalLexerState>,
    pub next_occurrence: u64,
    pub layout_revision: LayoutRevisionId,
    pub semantic_revision: SemanticRevisionId,
    pub value_revision: TokenValueRevisionId,
    pub structure_revision: TokenStructureRevisionId,
}

/// What the tokens of a document are.
#[verifier::ext_equal]
pub ghost struct LexicalView<R> {
    pub document: StableDocumentId,
    pub source: Seq<char>,
    pub lexical: Seq<OccurrenceView<R>>,
    pub initial_state: Seq<StateView>,
    pub next_occurrence: u64,
    pub layout_revision: LayoutRevisionId,
    pub semantic_revision: SemanticRevisionId,
    pub value_revision: TokenValueRevisionId,
    pub structure_revision: TokenStructureRevisionId,
}

impl<R> View for LexicalDocument<R> {
    type V = LexicalView<R>;

    open spec fn view(&self) -> LexicalView<R> {
        LexicalView {
            document: self.document,
            source: rope_chars(self.source),
            lexical: occurrence_views(self.lexical@),
            initial_state: self.initial_state@,
            next_occurrence: self.next_occurrence,
            layout_revision: self.layout_revision,
            semantic_revision: self.semantic_revision,
            value_revision: self.value_revision,
            structure_revision: self.structure_revision,
        }
    }
}

/// No identity occurs twice, and all were handed out.
pub open spec fn identities_differ<R>(list: Seq<OccurrenceView<R>>, next: u64) -> bool {
    &&& forall|i: int| 0 <= i < list.len() ==> (#[trigger] list[i]).id.0 < next
    &&& forall|i: int, j: int|
        0 <= i < j < list.len() ==> (#[trigger] list[i]).id != (#[trigger] list[j]).id
}

/// The open states before the token at a rank.
pub open spec fn state_before<R>(v: LexicalView<R>, rank: int) -> Seq<StateView> {
    if 0 < rank <= v.lexical.len() {
        v.lexical[rank - 1].state_after
    } else {
        v.initial_state
    }
}

/// The rank of a token.
pub open spec fn is_lexical_rank<R>(v: LexicalView<R>, id: TokenOccurrenceId, rank: int) -> bool {
    0 <= rank < v.lexical.len() && v.lexical[rank].id == id
}

impl<R: LexerRoot> LexicalDocument<R> {
    /// What the parser and editors see is what the tokens are, identities are
    /// right, and places in the text are numbers.
    pub open spec fn wf(self) -> bool {
        &&& self.layout@ == layout_entries(self@.lexical)
        &&& self.semantic@ == parse_tokens(self@.lexical)
        &&& identities_differ(self@.lexical, self.next_occurrence)
        &&& bytes_of(self@.lexical) <= usize::MAX
    }

    /// A document without tokens.
    pub fn empty(document: StableDocumentId, root: State) -> (r: Self)
        ensures
            r.wf(),
            r@ == (LexicalView::<R> {
                document,
                source: Seq::empty(),
                lexical: Seq::empty(),
                initial_state: seq![root@],
                next_occurrence: 0,
                layout_revision: LayoutRevisionId(0),
                semantic_revision: SemanticRevisionId(0),
                value_revision: TokenValueRevisionId(0),
                structure_revision: TokenStructureRevisionId(0),
            }),
    {
        let initial = LexerState::new(root);
        let r = LexicalDocument {
            document,
            source: rope_new(),
            lexical: Vec::new(),
            layout: Vec::new(),
            semantic: Vec::new(),
            initial_state: Arc::new(CanonicalLexerState::from_state(&initial)),
            next_occurrence: 0,
            layout_revision: LayoutRevisionId(0),
            semantic_revision: SemanticRevisionId(0),
            value_revision: TokenValueRevisionId(0),
            structure_revision: TokenStructureRevisionId(0),
        };
        proof {
            assert(r@.lexical =~= Seq::<OccurrenceView<R>>::empty());
            assert(r.layout@ =~= layout_entries(r@.lexical));
            assert(r.semantic@ =~= parse_tokens(r@.lexical));
        }
        r
    }

    /// The rank of a token.
    pub fn lexical_rank_of(&self, id: TokenOccurrenceId) -> (r: Option<usize>)
        requires
            self.wf(),
        ensures
            match r {
                Some(rank) => is_lexical_rank(self@, id, rank as int),
                None => forall|rank: int| !#[trigger] is_lexical_rank(self@, id, rank),
            },
    {
        let mut at: usize = 0;
        while at < self.lexical.len()
            invariant
                at <= self.lexical@.len(),
                forall|i: int| 0 <= i < at ==> self@.lexical[i].id != id,
            decreases self.lexical@.len() - at,
        {
            assert(self@.lexical[at as int] == self.lexical@[at as int]@);
            if self.lexical[at].id == id {
                assert(is_lexical_rank(self@, id, at as int));
                return Some(at);
            }
            at += 1;
        }
        None
    }

    /// The rank of a token among those that the parser sees.
    pub fn semantic_rank_of(&self, id: TokenOccurrenceId) -> (r: Option<usize>)
        requires
            self.wf(),
        ensures
            match r {
                Some(rank) => rank < self.semantic@.len() && self.semantic@[rank as int].occurrence
                    == id,
                None => forall|i: int|
                    0 <= i < self.semantic@.len() ==> (#[trigger] self.semantic@[i]).occurrence
                        != id,
            },
    {
        let mut at: usize = 0;
        while at < self.semantic.len()
            invariant
                at <= self.semantic@.len(),
                forall|i: int| 0 <= i < at ==> (#[trigger] self.semantic@[i]).occurrence != id,
            decreases self.semantic@.len() - at,
        {
            if self.semantic[at].occurrence == id {
                return Some(at);
            }
            at += 1;
        }
        None
    }

    /// Where the token at a rank starts.
    pub fn lexical_start(&self, rank: usize) -> (r: usize)
        requires
            self.wf(),
        ensures
            r == start_of(self@.lexical, rank as int),
    {
        let ghost list = self@.lexical;
        let end: usize = if rank < self.layout.len() {
            rank
        } else {
            self.layout.len()
        };
        let mut sum: usize = 0;
        let mut at: usize = 0;
        assert(list.take(0) =~= Seq::<OccurrenceView<R>>::empty());
        while at < end
            invariant
                at <= end <= list.len(),
                list == self@.lexical,
                self.layout@ == layout_entries(list),
                bytes_of(list) <= usize::MAX,
                sum == bytes_of(list.take(at as int)),
            decreases end - at,
        {
            proof {
                assert(list.take(at as int + 1).drop_last() =~= list.take(at as int));
                lemma_start_grows(list, at as int, at as int + 1);
                assert(self.layout@[at as int] == layout_entry(list[at as int]));
            }
            sum = sum + self.layout[at].byte_len as usize;
            at += 1;
        }
        sum
    }

    /// The rank of the first token that reaches beyond a byte.
    pub fn lexical_rank_at_byte(&self, byte: usize) -> (r: usize)
        requires
            self.wf(),
        ensures
            r == rank_at(self@.lexical, byte as int),
    {
        let ghost list = self@.lexical;
        let mut sum: usize = 0;
        let mut at: usize = 0;
        assert(list.take(0) =~= Seq::<OccurrenceView<R>>::empty());
        while at < self.layout.len()
            invariant
                at <= self.layout@.len(),
                list == self@.lexical,
                self.layout@ == layout_entries(list),
                bytes_of(list) <= usize::MAX,
                sum == bytes_of(list.take(at as int)),
                sum <= byte,
            decreases self.layout@.len() - at,
        {
            proof {
                assert(list.take(at as int + 1).drop_last() =~= list.take(at as int));
                lemma_start_grows(list, at as int, at as int + 1);
                assert(self.layout@[at as int] == layout_entry(list[at as int]));
            }
            sum = sum + self.layout[at].byte_len as usize;
            if sum > byte {
                proof {
                    lemma_rank_found(list, byte as int, at as int);
                }
                return at;
            }
            at += 1;
        }
        proof {
            assert(list.take(at as int) =~= list);
        }
        at
    }

    /// The token at a rank.
    pub fn lexical_at(&self, rank: usize) -> (r: Option<&LexicalOccurrence<R>>)
        ensures
            match r {
                Some(token) => rank < self@.lexical.len() && token@ == self@.lexical[rank as int],
                None => rank >= self@.lexical.len(),
            },
    {
        if rank < self.lexical.len() {
            assert(self@.lexical[rank as int] == self.lexical@[rank as int]@);
            Some(&self.lexical[rank])
        } else {
            None
        }
    }

    /// What the parser sees at a rank.
    pub fn semantic_at(&self, rank: usize) -> (r: Option<ParseTokenRef>)
        requires
            self.wf(),
        ensures
            r == (if rank < parse_tokens(self@.lexical).len() {
                Some(parse_tokens(self@.lexical)[rank as int])
            } else {
                None
            }),
    {
        if rank < self.semantic.len() {
            Some(self.semantic[rank])
        } else {
            None
        }
    }

    /// Where the lexer stands before the token at a rank.
    pub fn state_before_rank(&self, rank: usize) -> (r: LexerState)
        requires
            self.wf(),
        ensures
            r.offset == start_of(self@.lexical, rank as int),
            stack_view(r.state_stack@) == state_before(self@, rank as int),
    {
        let offset: usize = self.lexical_start(rank);
        if rank > 0 && rank - 1 < self.lexical.len() {
            assert(self@.lexical[rank - 1] == self.lexical@[rank - 1]@);
            self.lexical[rank - 1].state_after.materialize(offset)
        } else {
            self.initial_state.materialize(offset)
        }
    }
}

proof fn lemma_rank_found<R>(list: Seq<OccurrenceView<R>>, byte: int, at: int)
    requires
        0 <= at < list.len(),
        bytes_of(list.take(at)) <= byte,
        bytes_of(list.take(at + 1)) > byte,
    ensures
        rank_at(list, byte) == at,
    decreases list.len(),
{
    let rest = list.drop_last();
    assert(list.take(list.len() as int) =~= list);
    if at == list.len() - 1 {
        assert(list.take(at) =~= rest);
    } else {
        lemma_start_grows(list, at + 1, list.len() - 1);
        assert(list.take(list.len() - 1) =~= rest);
        assert(rest.take(at) =~= list.take(at));
        assert(rest.take(at + 1) =~= list.take(at + 1));
        lemma_rank_found(rest, byte, at);
    }
}

/// The identity of the document at a URI: a hash of the URI that is the same in
/// every process.
pub fn document_id(uri: &str) -> (r: StableDocumentId)
    ensures
        r.0 == fnv1a(encode_utf8(uri@)),
{
    StableDocumentId(fnv64(uri.as_bytes()))
}

/// The identity of a token fact.
#[derive(Clone, Copy, Debug, PartialEq, Eq, Hash, Structural)]
pub enum TokenFactId {
    Source(TokenOccurrenceId),
    Synthetic(SyntheticTokenId),
}

/// The key of a token fact.
#[derive(Clone, Copy, Debug, PartialEq, Eq, Hash, Structural)]
pub struct TokenFactKey {
    pub document_id: u64,
    pub token: TokenFactId,
}

/// One token as it is published.
#[derive(Debug)]
pub struct TokenFact<R> {
    pub terminal_id: usize,
    pub fingerprint: TokenFingerprint,
    pub value: Arc<R>,
}

/// One token that the parser sees.
#[derive(Debug)]
pub struct SemanticToken<R> {
    pub occurrence: TokenOccurrenceId,
    pub terminal_id: usize,
    pub fingerprint: TokenFingerprint,
    pub value: Arc<R>,
}

} // verus!
