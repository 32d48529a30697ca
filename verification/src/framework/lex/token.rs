//! The vocabulary of lexing.

use std::sync::Arc;

use vstd::prelude::*;

use crate::framework::lex::mode::TokenAction;
use crate::framework::parse::grammar::TerminalId;

verus! {

/// Values of tokens, which a language defines.
pub trait LexerRoot: Sized {
    /// The bytes by which a value is told apart in a fingerprint.
    spec fn hashed(&self) -> Seq<u8>;

    fn hash_bytes(&self) -> (r: Vec<u8>)
        ensures
            r@ == self.hashed(),
    ;

    /// Whether two values are the same.
    fn same(&self, other: &Self) -> (r: bool)
        ensures
            r == (*self == *other),
    ;
}

/// A value that a token carries, read from its text.
pub trait FromLexeme: Sized {
    type Error;

    /// What a text may be read as: anything, unless the type says otherwise.
    open spec fn reads_as(lexeme: Seq<char>, r: Result<Self, Self::Error>) -> bool {
        true
    }

    fn from_lexeme(lexeme: &str) -> (r: Result<Self, Self::Error>)
        ensures
            Self::reads_as(lexeme@, r),
    ;
}

impl FromLexeme for String {
    type Error = core::convert::Infallible;

    /// The text itself.
    open spec fn reads_as(lexeme: Seq<char>, r: Result<Self, Self::Error>) -> bool {
        r matches Ok(text) && text@ == lexeme
    }

    fn from_lexeme(lexeme: &str) -> (r: Result<Self, Self::Error>) {
        Ok(lexeme.to_string())
    }
}

impl LexerRoot for u8 {
    open spec fn hashed(&self) -> Seq<u8> {
        seq![*self]
    }

    fn hash_bytes(&self) -> (r: Vec<u8>) {
        let mut out: Vec<u8> = Vec::new();
        out.push(*self);
        assert(out@ =~= seq![*self]);
        out
    }

    fn same(&self, other: &Self) -> (r: bool) {
        *self == *other
    }
}

/// What is counted of lexing a document again.
#[derive(Clone, Copy, Debug, PartialEq, Eq, Structural)]
pub struct IncrementalLexStats {
    pub restart_byte: usize,
    pub restart_occurrence: usize,
    pub relexed: usize,
    pub reused: usize,
    pub old_tokens: usize,
    pub new_tokens: usize,
}

impl Default for IncrementalLexStats {
    fn default() -> (r: Self)
        ensures
            r == (IncrementalLexStats {
                restart_byte: 0,
                restart_occurrence: 0,
                relexed: 0,
                reused: 0,
                old_tokens: 0,
                new_tokens: 0,
            }),
    {
        IncrementalLexStats {
            restart_byte: 0,
            restart_occurrence: 0,
            relexed: 0,
            reused: 0,
            old_tokens: 0,
            new_tokens: 0,
        }
    }
}

/// What is counted of the lexer's work on one document in one command.
#[derive(Clone, Copy, Debug, PartialEq, Eq, Structural)]
pub struct LexerWork {
    pub component_runs: u64,
    pub checkpoint_lookups: u64,
    pub checkpoint_lookup_depth: u64,
    pub restart_bytes: u64,
    pub restart_occurrences: u64,
    pub source_bytes_examined: u64,
    pub dfa_transitions: u64,
    pub lexical_entries_visited: u64,
    pub semantic_entries_visited: u64,
    pub tokens_replayed: u64,
    pub tokens_inserted: u64,
    pub tokens_removed: u64,
    pub tokens_reused: u64,
    pub retained_suffix_entries_visited: u64,
    pub token_fact_writes: u64,
    pub convergence_candidates: u64,
    pub convergence_checks: u64,
    pub eof_replays: u64,
    pub transferred_tape_intervals: u64,
    pub scratch_bytes_requested: u64,
    pub tape_nodes_created: u64,
    pub tape_nodes_reused: u64,
    pub radix_nodes_created: u64,
    pub radix_nodes_reused: u64,
    pub full_tape_iterations: u64,
    pub full_projection_fallbacks: u64,
    pub document_vector_rebuilds: u64,
}

/// No work at all.
pub open spec fn no_lexer_work() -> LexerWork {
    LexerWork {
        component_runs: 0,
        checkpoint_lookups: 0,
        checkpoint_lookup_depth: 0,
        restart_bytes: 0,
        restart_occurrences: 0,
        source_bytes_examined: 0,
        dfa_transitions: 0,
        lexical_entries_visited: 0,
        semantic_entries_visited: 0,
        tokens_replayed: 0,
        tokens_inserted: 0,
        tokens_removed: 0,
        tokens_reused: 0,
        retained_suffix_entries_visited: 0,
        token_fact_writes: 0,
        convergence_candidates: 0,
        convergence_checks: 0,
        eof_replays: 0,
        transferred_tape_intervals: 0,
        scratch_bytes_requested: 0,
        tape_nodes_created: 0,
        tape_nodes_reused: 0,
        radix_nodes_created: 0,
        radix_nodes_reused: 0,
        full_tape_iterations: 0,
        full_projection_fallbacks: 0,
        document_vector_rebuilds: 0,
    }
}

/// A count that does not run over.
pub open spec fn counted(n: int) -> u64 {
    if n > u64::MAX {
        u64::MAX
    } else {
        n as u64
    }
}

/// Two counts together.
pub fn count_both(a: usize, b: usize) -> (r: u64)
    ensures
        r == counted(a + b),
{
    (a as u64).saturating_add(b as u64)
}

impl Default for LexerWork {
    fn default() -> (r: Self)
        ensures
            r == no_lexer_work(),
    {
        LexerWork {
            component_runs: 0,
            checkpoint_lookups: 0,
            checkpoint_lookup_depth: 0,
            restart_bytes: 0,
            restart_occurrences: 0,
            source_bytes_examined: 0,
            dfa_transitions: 0,
            lexical_entries_visited: 0,
            semantic_entries_visited: 0,
            tokens_replayed: 0,
            tokens_inserted: 0,
            tokens_removed: 0,
            tokens_reused: 0,
            retained_suffix_entries_visited: 0,
            token_fact_writes: 0,
            convergence_candidates: 0,
            convergence_checks: 0,
            eof_replays: 0,
            transferred_tape_intervals: 0,
            scratch_bytes_requested: 0,
            tape_nodes_created: 0,
            tape_nodes_reused: 0,
            radix_nodes_created: 0,
            radix_nodes_reused: 0,
            full_tape_iterations: 0,
            full_projection_fallbacks: 0,
            document_vector_rebuilds: 0,
        }
    }
}

impl LexerWork {
    /// No sum of two counters runs over.
    pub open spec fn sums_fit(self, other: LexerWork) -> bool {
        &&& self.component_runs + other.component_runs <= u64::MAX
        &&& self.checkpoint_lookups + other.checkpoint_lookups <= u64::MAX
        &&& self.checkpoint_lookup_depth + other.checkpoint_lookup_depth <= u64::MAX
        &&& self.restart_bytes + other.restart_bytes <= u64::MAX
        &&& self.restart_occurrences + other.restart_occurrences <= u64::MAX
        &&& self.source_bytes_examined + other.source_bytes_examined <= u64::MAX
        &&& self.dfa_transitions + other.dfa_transitions <= u64::MAX
        &&& self.lexical_entries_visited + other.lexical_entries_visited <= u64::MAX
        &&& self.semantic_entries_visited + other.semantic_entries_visited <= u64::MAX
        &&& self.tokens_replayed + other.tokens_replayed <= u64::MAX
        &&& self.tokens_inserted + other.tokens_inserted <= u64::MAX
        &&& self.tokens_removed + other.tokens_removed <= u64::MAX
        &&& self.tokens_reused + other.tokens_reused <= u64::MAX
        &&& self.retained_suffix_entries_visited + other.retained_suffix_entries_visited <= u64::MAX
        &&& self.token_fact_writes + other.token_fact_writes <= u64::MAX
        &&& self.convergence_candidates + other.convergence_candidates <= u64::MAX
        &&& self.convergence_checks + other.convergence_checks <= u64::MAX
        &&& self.eof_replays + other.eof_replays <= u64::MAX
        &&& self.transferred_tape_intervals + other.transferred_tape_intervals <= u64::MAX
        &&& self.scratch_bytes_requested + other.scratch_bytes_requested <= u64::MAX
        &&& self.tape_nodes_created + other.tape_nodes_created <= u64::MAX
        &&& self.tape_nodes_reused + other.tape_nodes_reused <= u64::MAX
        &&& self.radix_nodes_created + other.radix_nodes_created <= u64::MAX
        &&& self.radix_nodes_reused + other.radix_nodes_reused <= u64::MAX
        &&& self.full_tape_iterations + other.full_tape_iterations <= u64::MAX
        &&& self.full_projection_fallbacks + other.full_projection_fallbacks <= u64::MAX
        &&& self.document_vector_rebuilds + other.document_vector_rebuilds <= u64::MAX
    }

    /// Whether no sum of two counters runs over.
    pub fn fits(&self, other: &Self) -> (r: bool)
        ensures
            r == self.sums_fit(*other),
    {
        other.component_runs <= u64::MAX - self.component_runs
            && other.checkpoint_lookups <= u64::MAX - self.checkpoint_lookups
            && other.checkpoint_lookup_depth <= u64::MAX - self.checkpoint_lookup_depth
            && other.restart_bytes <= u64::MAX - self.restart_bytes
            && other.restart_occurrences <= u64::MAX - self.restart_occurrences
            && other.source_bytes_examined <= u64::MAX - self.source_bytes_examined
            && other.dfa_transitions <= u64::MAX - self.dfa_transitions
            && other.lexical_entries_visited <= u64::MAX - self.lexical_entries_visited
            && other.semantic_entries_visited <= u64::MAX - self.semantic_entries_visited
            && other.tokens_replayed <= u64::MAX - self.tokens_replayed
            && other.tokens_inserted <= u64::MAX - self.tokens_inserted
            && other.tokens_removed <= u64::MAX - self.tokens_removed
            && other.tokens_reused <= u64::MAX - self.tokens_reused
            && other.retained_suffix_entries_visited <= u64::MAX - self.retained_suffix_entries_visited
            && other.token_fact_writes <= u64::MAX - self.token_fact_writes
            && other.convergence_candidates <= u64::MAX - self.convergence_candidates
            && other.convergence_checks <= u64::MAX - self.convergence_checks
            && other.eof_replays <= u64::MAX - self.eof_replays
            && other.transferred_tape_intervals <= u64::MAX - self.transferred_tape_intervals
            && other.scratch_bytes_requested <= u64::MAX - self.scratch_bytes_requested
            && other.tape_nodes_created <= u64::MAX - self.tape_nodes_created
            && other.tape_nodes_reused <= u64::MAX - self.tape_nodes_reused
            && other.radix_nodes_created <= u64::MAX - self.radix_nodes_created
            && other.radix_nodes_reused <= u64::MAX - self.radix_nodes_reused
            && other.full_tape_iterations <= u64::MAX - self.full_tape_iterations
            && other.full_projection_fallbacks <= u64::MAX - self.full_projection_fallbacks
            && other.document_vector_rebuilds <= u64::MAX - self.document_vector_rebuilds
    }

    /// The sums of the counters.
    pub open spec fn sum(self, other: LexerWork) -> LexerWork {
        LexerWork {
            component_runs: (self.component_runs + other.component_runs) as u64,
            checkpoint_lookups: (self.checkpoint_lookups + other.checkpoint_lookups) as u64,
            checkpoint_lookup_depth: (self.checkpoint_lookup_depth + other.checkpoint_lookup_depth) as u64,
            restart_bytes: (self.restart_bytes + other.restart_bytes) as u64,
            restart_occurrences: (self.restart_occurrences + other.restart_occurrences) as u64,
            source_bytes_examined: (self.source_bytes_examined + other.source_bytes_examined) as u64,
            dfa_transitions: (self.dfa_transitions + other.dfa_transitions) as u64,
            lexical_entries_visited: (self.lexical_entries_visited + other.lexical_entries_visited) as u64,
            semantic_entries_visited: (self.semantic_entries_visited + other.semantic_entries_visited) as u64,
            tokens_replayed: (self.tokens_replayed + other.tokens_replayed) as u64,
            tokens_inserted: (self.tokens_inserted + other.tokens_inserted) as u64,
            tokens_removed: (self.tokens_removed + other.tokens_removed) as u64,
            tokens_reused: (self.tokens_reused + other.tokens_reused) as u64,
            retained_suffix_entries_visited: (self.retained_suffix_entries_visited + other.retained_suffix_entries_visited) as u64,
            token_fact_writes: (self.token_fact_writes + other.token_fact_writes) as u64,
            convergence_candidates: (self.convergence_candidates + other.convergence_candidates) as u64,
            convergence_checks: (self.convergence_checks + other.convergence_checks) as u64,
            eof_replays: (self.eof_replays + other.eof_replays) as u64,
            transferred_tape_intervals: (self.transferred_tape_intervals + other.transferred_tape_intervals) as u64,
            scratch_bytes_requested: (self.scratch_bytes_requested + other.scratch_bytes_requested) as u64,
            tape_nodes_created: (self.tape_nodes_created + other.tape_nodes_created) as u64,
            tape_nodes_reused: (self.tape_nodes_reused + other.tape_nodes_reused) as u64,
            radix_nodes_created: (self.radix_nodes_created + other.radix_nodes_created) as u64,
            radix_nodes_reused: (self.radix_nodes_reused + other.radix_nodes_reused) as u64,
            full_tape_iterations: (self.full_tape_iterations + other.full_tape_iterations) as u64,
            full_projection_fallbacks: (self.full_projection_fallbacks + other.full_projection_fallbacks) as u64,
            document_vector_rebuilds: (self.document_vector_rebuilds + other.document_vector_rebuilds) as u64,
        }
    }

    /// Adds other counters to these.
    pub fn merge(&mut self, other: &Self)
        requires
            old(self).sums_fit(*other),
        ensures
            *final(self) == old(self).sum(*other),
    {
        self.component_runs += other.component_runs;
        self.checkpoint_lookups += other.checkpoint_lookups;
        self.checkpoint_lookup_depth += other.checkpoint_lookup_depth;
        self.restart_bytes += other.restart_bytes;
        self.restart_occurrences += other.restart_occurrences;
        self.source_bytes_examined += other.source_bytes_examined;
        self.dfa_transitions += other.dfa_transitions;
        self.lexical_entries_visited += other.lexical_entries_visited;
        self.semantic_entries_visited += other.semantic_entries_visited;
        self.tokens_replayed += other.tokens_replayed;
        self.tokens_inserted += other.tokens_inserted;
        self.tokens_removed += other.tokens_removed;
        self.tokens_reused += other.tokens_reused;
        self.retained_suffix_entries_visited += other.retained_suffix_entries_visited;
        self.token_fact_writes += other.token_fact_writes;
        self.convergence_candidates += other.convergence_candidates;
        self.convergence_checks += other.convergence_checks;
        self.eof_replays += other.eof_replays;
        self.transferred_tape_intervals += other.transferred_tape_intervals;
        self.scratch_bytes_requested += other.scratch_bytes_requested;
        self.tape_nodes_created += other.tape_nodes_created;
        self.tape_nodes_reused += other.tape_nodes_reused;
        self.radix_nodes_created += other.radix_nodes_created;
        self.radix_nodes_reused += other.radix_nodes_reused;
        self.full_tape_iterations += other.full_tape_iterations;
        self.full_projection_fallbacks += other.full_projection_fallbacks;
        self.document_vector_rebuilds += other.document_vector_rebuilds;
    }
}

/// A token rule of a lexer state.
#[derive(Clone, Debug)]
pub struct ResolvedToken {
    pub terminal: TerminalId,
    pub precedence: usize,
    pub label: String,
    pub empty: bool,
    pub action: TokenAction,
    pub skip: bool,
    pub shortest: usize,
    pub longest: usize,
}

impl ResolvedToken {
    /// The length of the shortest text that the rule matches.
    pub fn minimum_length(&self) -> (r: usize)
        ensures
            r == self.shortest,
    {
        self.shortest
    }

    /// The length of the longest text that the rule matches.
    pub fn maximum_length(&self) -> (r: usize)
        ensures
            r == self.longest,
    {
        self.longest
    }
}

/// A kind of lexical error.
#[derive(Clone, Copy, Debug, PartialEq, Eq, Hash, Structural)]
pub enum LexErrorKind {
    UnexpectedInput,
    RequiredBoundary,
}

/// A lexical error, with its place.
#[derive(Clone, Copy, Debug, PartialEq, Eq, Hash, Structural)]
pub struct LexErrorInfo {
    pub kind: LexErrorKind,
    pub start: usize,
    pub end: usize,
}

/// One token as the scanner hands it out, before it has an identity.
#[derive(Debug)]
pub struct ScannedToken<R> {
    pub start: usize,
    pub end: usize,
    pub terminal: Option<TerminalId>,
    pub skip: bool,
    pub error: Option<LexErrorKind>,
    pub value: R,
}

/// One token with its identity and place.
#[derive(Debug)]
pub struct LexToken<R> {
    pub id: usize,
    pub start: usize,
    pub length: usize,
    pub terminal: Option<TerminalId>,
    pub error: Option<LexErrorInfo>,
    pub value: Arc<R>,
}

/// The identity of the token that stands for the end.
pub const SYNTHETIC_EOF_ID: usize = usize::MAX;

/// Why lexing stopped.
#[derive(Clone, Debug)]
pub enum LexInterrupt {
    TokenParseError { token: String, lexeme: String, err: String },
    ParseError(String, String),
    InternalError(LexFault),
    NoCandidate,
    MissingState,
    UnsupportedSearch,
    DeadState,
    QuitState,
    EndOfInput,
}

/// What went wrong inside the lexer.
#[derive(Clone, Copy, Debug, PartialEq, Eq, Structural)]
pub enum LexFault {
    /// Splices do not fit the texts before and after.
    DeltaMismatch,
    /// A splice does not fit the text that the splices before it led to.
    SnapshotMismatch,
    /// The splices did not lead to the text.
    WrongText,
    /// A place in the text cannot be moved.
    TranslationOverflow,
    /// An inserted range is too long.
    InsertionOverflow,
    /// A length does not fit.
    LengthOverflow,
    /// No identity is left.
    IdentitiesExhausted,
    /// No revision is left.
    RevisionsExhausted,
}

impl LexFault {
    /// What is said of the fault.
    pub open spec fn text(self) -> Seq<char> {
        match self {
            LexFault::DeltaMismatch => "source delta does not match adjacent source revisions"@,
            LexFault::SnapshotMismatch => "source delta no longer matches the lexer snapshot"@,
            LexFault::WrongText => "source delta did not produce the observed document text"@,
            LexFault::TranslationOverflow => "source delta coordinate translation overflowed"@,
            LexFault::InsertionOverflow => "source insertion range overflowed"@,
            LexFault::LengthOverflow => "source length delta overflows isize"@,
            LexFault::IdentitiesExhausted => "token occurrence identity space exhausted"@,
            LexFault::RevisionsExhausted => "revision overflow"@,
        }
    }

    /// What is said of the fault.
    pub fn message(&self) -> (r: &'static str)
        ensures
            r@ == self.text(),
    {
        match self {
            LexFault::DeltaMismatch => "source delta does not match adjacent source revisions",
            LexFault::SnapshotMismatch => "source delta no longer matches the lexer snapshot",
            LexFault::WrongText => "source delta did not produce the observed document text",
            LexFault::TranslationOverflow => "source delta coordinate translation overflowed",
            LexFault::InsertionOverflow => "source insertion range overflowed",
            LexFault::LengthOverflow => "source length delta overflows isize",
            LexFault::IdentitiesExhausted => "token occurrence identity space exhausted",
            LexFault::RevisionsExhausted => "revision overflow",
        }
    }
}

impl LexInterrupt {
    /// A text could not be made a token.
    pub fn token_parse_failed(token: &str, lexeme: &str, source: &str) -> (r: Self)
        ensures
            r matches LexInterrupt::TokenParseError { token: a, lexeme: b, err: c } && a@ == token@
                && b@ == lexeme@ && c@ == source@,
    {
        LexInterrupt::TokenParseError {
            token: token.to_string(),
            lexeme: lexeme.to_string(),
            err: source.to_string(),
        }
    }
}

/// Why no token text could be generated.
#[derive(Clone, Debug)]
pub enum GenerateError {
    RegexCompile { token: String, err: String },
    NoAcceptedSample { token: String },
    UnknownVariant { state: String, variant: String },
    UnsupportedWhenVariant { token: String },
    UnsupportedEmptyVariant { token: String },
    Write(String),
}

/// Why a lexer could not be set up.
#[derive(Clone, Debug)]
pub enum LexerCreationError {
    RegexParsingError(String, String, String),
    RegexMatcherBuildError { state: String, source: String },
    UnsupportedRegexFeature(String, String, String),
    ImpossibleToken(String, String),
    EmptyMatchToken(String, String),
    UnknownState(String),
}

/// A type whose values cannot be made from the text of a token.
#[derive(Clone, Debug)]
pub struct UnsupportedDefaultParseError {
    ty: String,
}

impl UnsupportedDefaultParseError {
    /// The name of the type.
    pub closed spec fn named(self) -> Seq<char> {
        self.ty@
    }

    /// The error for a type with a name.
    pub fn new(ty: &str) -> (r: Self)
        ensures
            r.named() == ty@,
    {
        UnsupportedDefaultParseError { ty: ty.to_string() }
    }

    /// The name of the type.
    pub fn ty(&self) -> (r: &str)
        ensures
            r@ == self.named(),
    {
        self.ty.as_str()
    }
}

} // verus!
