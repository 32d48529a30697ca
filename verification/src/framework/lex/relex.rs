//! Lexing a window of a document again.

use std::sync::Arc;

use vstd::prelude::*;

use crate::framework::lex::lexed::{
    bytes_of, identities_differ, layout_entries, layout_entry, lemma_parse_tokens_join,
    lemma_rank_at, lemma_start_grows, occurrence_views, parse_tokens, rank_at, semantic, start_of,
    state_before, LayoutRevisionId, LexicalDocument, LexicalOccurrence, LexicalView, OccurrenceView,
    ParseTokenRef, TokenLayoutEntry, TokenOccurrenceId, TokenStructureRevisionId,
    TokenValueRevisionId,
};
use crate::framework::lex::mode::{
    stack_view, CanonicalLexerState, LexerState, LexerStateInterner, StateView,
};
use crate::framework::lex::patch::{
    changed_ids, direct_patch, ids_of, named, nameless_all, partner, reconcile_occurrence_ids,
    splice_views, strangers, window_splice, LocalPatch,
};
use crate::framework::lex::token::{
    count_both, counted, no_lexer_work, LexFault, LexInterrupt, LexerRoot, LexerWork, ScannedToken,
};
use crate::framework::parse::delta::lemma_shared_ends;
use crate::framework::source::SourceSplice;
use crate::sort::{distinct_sorted, strictly_ascending};
use crate::text::{rope_bytes, rope_chars, rope_len_bytes};

verus! {

/// One step of a scanner: a token, and where the lexer stands behind it.
pub struct Scanned<R> {
    pub token: ScannedToken<R>,
    pub after: LexerState,
}

/// How a language reads tokens off a text.
pub trait Scanner<R> {
    /// What the scanner may read from where the lexer stands: anything, unless
    /// it says otherwise.
    open spec fn reads(
        &self,
        state: LexerState,
        source: ropey::Rope,
        r: Result<Option<Scanned<R>>, LexInterrupt>,
    ) -> bool {
        true
    }

    /// The next token from where the lexer stands; none at the end.
    fn next_token(&self, state: &LexerState, source: &ropey::Rope) -> (r: Result<
        Option<Scanned<R>>,
        LexInterrupt,
    >)
        ensures
            self.reads(*state, *source, r),
    ;
}

/// Where the lexer stands before a step of a reading.
pub open spec fn state_at<R>(from: LexerState, steps: Seq<Scanned<R>>, i: int) -> LexerState {
    if i <= 0 {
        from
    } else {
        steps[i - 1].after
    }
}

/// The scanner reads the steps one after the other.
pub open spec fn is_reading<R, S: Scanner<R>>(
    scanner: S,
    from: LexerState,
    source: ropey::Rope,
    steps: Seq<Scanned<R>>,
) -> bool {
    forall|i: int|
        0 <= i < steps.len() ==> scanner.reads(
            state_at(from, steps, i),
            source,
            Ok(Some(#[trigger] steps[i])),
        )
}

/// How wide a token is.
pub open spec fn width_of<R>(token: ScannedToken<R>) -> int {
    if token.end > token.start {
        token.end - token.start
    } else {
        0
    }
}

/// The token of a document that a step reads. It has no identity yet.
pub open spec fn occurrence_of<R>(step: Scanned<R>) -> OccurrenceView<R> {
    OccurrenceView {
        id: TokenOccurrenceId(0),
        byte_len: width_of(step.token) as u32,
        terminal: step.token.terminal,
        skip: step.token.skip,
        value: step.token.value,
        error: step.token.error,
        state_after: stack_view(step.after.state_stack@),
    }
}

/// Where a place of the new text was in the old one, behind an edit.
pub open spec fn old_place(offset: int, old_len: int, new_len: int) -> Option<int> {
    let at = offset - (new_len - old_len);
    if 0 <= at <= usize::MAX {
        Some(at)
    } else {
        None
    }
}

/// The old token at which a new text goes on as the old one did: it starts at
/// the same place, behind the edit, and the open states before it are the same.
pub open spec fn converges<R>(
    v: LexicalView<R>,
    splice: SourceSplice,
    old_len: int,
    new_len: int,
    offset: int,
    stack: Seq<StateView>,
) -> Option<int> {
    if offset < splice.new_range.end {
        None
    } else {
        match old_place(offset, old_len, new_len) {
            Some(at) => {
                let rank = rank_at(v.lexical, at);
                if at >= splice.old_range.end && start_of(v.lexical, rank) == at && state_before(
                    v,
                    rank,
                ) == stack {
                    Some(rank)
                } else {
                    None
                }
            },
            None => None,
        }
    }
}

/// What was read again: the new tokens, where the lexer stands behind them, and
/// the old token at which the rest goes on.
pub struct Window<R> {
    pub tokens: Vec<LexicalOccurrence<R>>,
    pub end: LexerState,
    pub convergence: Option<usize>,
    pub checks: u64,
}

/// The text goes on as the old one did from where the lexer stands.
pub open spec fn converges_at<R>(
    v: LexicalView<R>,
    splice: SourceSplice,
    source: ropey::Rope,
    state: LexerState,
) -> Option<int> {
    converges(
        v,
        splice,
        vstd::utf8::encode_utf8(v.source).len() as int,
        rope_bytes(source).len() as int,
        state.offset as int,
        stack_view(state.state_stack@),
    )
}

/// A reading starts before the token at an edit, and did not come to where the
/// text goes on as it did before its last step.
pub open spec fn reading_from<R, S: Scanner<R>>(
    scanner: S,
    v: LexicalView<R>,
    splice: SourceSplice,
    source: ropey::Rope,
    from: LexerState,
    steps: Seq<Scanned<R>>,
) -> bool {
    let restart = rank_at(v.lexical, splice.old_range.start as int);
    &&& from.offset == start_of(v.lexical, restart)
    &&& stack_view(from.state_stack@) == state_before(v, restart)
    &&& is_reading(scanner, from, source, steps)
    &&& forall|i: int|
        0 <= i < steps.len() - 1 ==> width_of((#[trigger] steps[i]).token) <= u32::MAX
            && converges_at(v, splice, source, steps[i].after) is None
}

/// How many of the first steps of a reading came to a place behind the edit, at
/// which the text may go on as it did.
pub open spec fn places_tried<R>(splice: SourceSplice, steps: Seq<Scanned<R>>, n: int) -> nat
    decreases n,
{
    if n <= 0 {
        0
    } else {
        places_tried(splice, steps, n - 1) + if steps[n - 1].after.offset >= splice.new_range.end {
            1nat
        } else {
            0nat
        }
    }
}

/// A window holds what a reading read, up to where the text goes on as it did,
/// to its end, or to a token that is too wide.
pub open spec fn reading_of<R, S: Scanner<R>>(
    scanner: S,
    v: LexicalView<R>,
    splice: SourceSplice,
    source: ropey::Rope,
    from: LexerState,
    steps: Seq<Scanned<R>>,
    window: Window<R>,
) -> bool {
    let wide = steps.len() > 0 && width_of(steps.last().token) > u32::MAX;
    let end = state_at(from, steps, steps.len() as int);
    let stopped = steps.len() > 0 && !wide && window.convergence is Some;
    &&& window.checks == counted(
        places_tried(splice, steps, window.tokens@.len() as int) + if !stopped && end.offset
            >= splice.new_range.end {
            1int
        } else {
            0int
        },
    )
    &&& reading_from(scanner, v, splice, source, from, steps)
    &&& window.end == end
    &&& occurrence_views(window.tokens@) == Seq::new(
        if wide {
            (steps.len() - 1) as nat
        } else {
            steps.len()
        },
        |i: int| occurrence_of(steps[i]),
    )
    &&& rank_found(window.convergence) == converges_at(v, splice, source, end)
    &&& wide || (steps.len() > 0 && window.convergence is Some) || scanner.reads(
        end,
        source,
        Ok(None),
    )
}

/// A window is what the scanner read again.
pub open spec fn is_window<R, S: Scanner<R>>(
    scanner: S,
    v: LexicalView<R>,
    splice: SourceSplice,
    source: ropey::Rope,
    window: Window<R>,
) -> bool {
    exists|from: LexerState, steps: Seq<Scanned<R>>| #[trigger]
        reading_of(scanner, v, splice, source, from, steps, window)
}

/// The scanner failed where a reading came to.
pub open spec fn reading_fails<R, S: Scanner<R>>(
    scanner: S,
    v: LexicalView<R>,
    splice: SourceSplice,
    source: ropey::Rope,
    error: LexInterrupt,
) -> bool {
    exists|from: LexerState, steps: Seq<Scanned<R>>| #[trigger]
        reading_from(scanner, v, splice, source, from, steps) && scanner.reads(
            state_at(from, steps, steps.len() as int),
            source,
            Err(error),
        )
}

/// A place that is found, as a number.
pub open spec fn rank_found(rank: Option<usize>) -> Option<int> {
    match rank {
        Some(rank) => Some(rank as int),
        None => None,
    }
}

/// The old token at which the rest goes on.
fn find_convergence<R: LexerRoot>(
    document: &LexicalDocument<R>,
    splice: &SourceSplice,
    old_len: usize,
    new_len: usize,
    state: &LexerState,
) -> (r: Option<usize>)
    requires
        document.wf(),
    ensures
        rank_found(r) == converges(
            document@,
            *splice,
            old_len as int,
            new_len as int,
            state.offset as int,
            stack_view(state.state_stack@),
        ),
{
    if state.offset < splice.new_range.end {
        return None;
    }
    let at: usize = if new_len >= old_len {
        let grown: usize = new_len - old_len;
        if state.offset < grown {
            return None;
        }
        state.offset - grown
    } else {
        let shrunk: usize = old_len - new_len;
        if state.offset > usize::MAX - shrunk {
            return None;
        }
        state.offset + shrunk
    };
    if at < splice.old_range.end {
        return None;
    }
    let rank: usize = document.lexical_rank_at_byte(at);
    if document.lexical_start(rank) != at {
        return None;
    }
    let before = document.state_before_rank(rank);
    let old_state = CanonicalLexerState::from_state(&before);
    let new_state = CanonicalLexerState::from_state(state);
    if new_state.same(&old_state) {
        Some(rank)
    } else {
        None
    }
}

proof fn lemma_places_same<R>(
    splice: SourceSplice,
    a: Seq<Scanned<R>>,
    b: Seq<Scanned<R>>,
    n: int,
)
    requires
        n <= a.len(),
        n <= b.len(),
        forall|i: int| 0 <= i < n ==> #[trigger] a[i] == b[i],
    ensures
        places_tried(splice, a, n) == places_tried(splice, b, n),
    decreases n,
{
    if n > 0 {
        lemma_places_same(splice, a, b, n - 1);
        assert(a[n - 1] == b[n - 1]);
    }
}

/// Reads tokens from before an edit on, until the rest goes on as it did.
pub fn scan_window<R: LexerRoot, S: Scanner<R>>(
    scanner: &S,
    document: &LexicalDocument<R>,
    next_source: &ropey::Rope,
    splice: &SourceSplice,
) -> (r: Result<Window<R>, LexInterrupt>)
    requires
        document.wf(),
    ensures
        match r {
            Ok(window) => is_window(*scanner, document@, *splice, *next_source, window),
            Err(error) => reading_fails(*scanner, document@, *splice, *next_source, error),
        },
{
    let ghost v = document@;
    let old_len: usize = rope_len_bytes(&document.source);
    let new_len: usize = rope_len_bytes(next_source);
    let restart: usize = document.lexical_rank_at_byte(splice.old_range.start);
    let mut state = document.state_before_rank(restart);
    let mut interner = LexerStateInterner::new();
    let mut tokens: Vec<LexicalOccurrence<R>> = Vec::new();
    let mut checks: u64 = 0;
    let mut stopped = false;
    let ghost from = state;
    let ghost mut steps: Seq<Scanned<R>> = Seq::empty();
    let ghost mut wide = false;
    loop
        invariant_except_break
            !stopped,
            tokens@.len() == steps.len(),
            forall|i: int| 0 <= i < tokens@.len() ==> (#[trigger] tokens@[i])@ == occurrence_of(
                steps[i],
            ),
            steps.len() > 0 ==> width_of(steps.last().token) <= u32::MAX && converges_at(
                v,
                *splice,
                *next_source,
                state,
            ) is None,
        invariant
            document.wf(),
            v == document@,
            old_len == vstd::utf8::encode_utf8(v.source).len(),
            new_len == rope_bytes(*next_source).len(),
            reading_from(*scanner, v, *splice, *next_source, from, steps),
            state == state_at(from, steps, steps.len() as int),
            checks == counted(places_tried(*splice, steps, tokens@.len() as int) as int),
            stopped ==> steps.len() > 0 && tokens@.len() == steps.len(),
        ensures
            wide == (steps.len() > 0 && width_of(steps.last().token) > u32::MAX),
            tokens@.len() == if wide {
                steps.len() - 1
            } else {
                steps.len() as int
            },
            forall|i: int| 0 <= i < tokens@.len() ==> (#[trigger] tokens@[i])@ == occurrence_of(
                steps[i],
            ),
            stopped == (steps.len() > 0 && !wide && converges_at(v, *splice, *next_source, state)
                is Some),
            wide || (steps.len() > 0 && converges_at(v, *splice, *next_source, state) is Some)
                || scanner.reads(state, *next_source, Ok(None)),
        decreases usize::MAX - tokens.len(),
    {
        let ghost at = state;
        let ghost before = steps;
        let step = match scanner.next_token(&state, next_source) {
            Ok(Some(step)) => step,
            Ok(None) => {
                proof {
                    wide = false;
                }
                break;
            },
            Err(error) => {
                assert(reading_from(*scanner, v, *splice, *next_source, from, steps));
                return Err(error);
            },
        };
        proof {
            steps = steps.push(step);
            assert forall|i: int| 0 <= i < steps.len() implies scanner.reads(
                state_at(from, steps, i),
                *next_source,
                Ok(Some(#[trigger] steps[i])),
            ) by {
                assert(state_at(from, steps, i) == state_at(from, before, i));
                if i < before.len() {
                    assert(steps[i] == before[i]);
                }
            }
            assert forall|i: int| 0 <= i < steps.len() - 1 implies width_of(
                (#[trigger] steps[i]).token,
            ) <= u32::MAX && converges_at(v, *splice, *next_source, steps[i].after) is None by {
                assert(steps[i] == before[i]);
            }
        }
        let token = step.token;
        state = step.after;
        let width: usize = if token.end > token.start {
            token.end - token.start
        } else {
            0
        };
        if width > u32::MAX as usize {
            proof {
                wide = true;
                assert forall|i: int| 0 <= i < tokens@.len() implies (#[trigger] tokens@[i])@
                    == occurrence_of(steps[i]) by {
                    assert(steps[i] == before[i]);
                }
                lemma_places_same(*splice, before, steps, tokens@.len() as int);
            }
            break;
        }
        let have: usize = tokens.len();
        let canonical = interner.intern(&state);
        tokens.push(
            LexicalOccurrence {
                id: TokenOccurrenceId(0),
                byte_len: width as u32,
                terminal: token.terminal,
                skip: token.skip,
                value: Arc::new(token.value),
                error: token.error,
                state_after: canonical,
            },
        );
        proof {
            assert forall|i: int| 0 <= i < tokens@.len() implies (#[trigger] tokens@[i])@
                == occurrence_of(steps[i]) by {
                if i < have {
                    assert(steps[i] == before[i]);
                }
            }
        }
        if state.offset >= splice.new_range.end {
            checks = checks.saturating_add(1);
        }
        proof {
            lemma_places_same(*splice, before, steps, have as int);
        }
        if find_convergence(document, splice, old_len, new_len, &state).is_some() {
            proof {
                wide = false;
            }
            stopped = true;
            break;
        }
    }
    let convergence = find_convergence(document, splice, old_len, new_len, &state);
    if !stopped && state.offset >= splice.new_range.end {
        checks = checks.saturating_add(1);
    }
    let window = Window { tokens, end: state, convergence, checks };
    proof {
        assert(occurrence_views(window.tokens@) =~= Seq::new(
            if wide {
                (steps.len() - 1) as nat
            } else {
                steps.len()
            },
            |i: int| occurrence_of(steps[i]),
        ));
        assert(reading_of(*scanner, v, *splice, *next_source, from, steps, window));
    }
    Ok(window)
}

// ---------------------------------------------------------------------------
// Putting a window in place

/// A list with another part.
fn with_part<K: Copy>(list: &Vec<K>, from: usize, to: usize, part: &Vec<K>) -> (r: Vec<K>)
    requires
        from <= to <= list@.len(),
    ensures
        r@ == list@.take(from as int) + part@ + list@.skip(to as int),
{
    let mut out: Vec<K> = Vec::new();
    let mut at: usize = 0;
    while at < from
        invariant
            at <= from <= list@.len(),
            out@ == list@.take(at as int),
        decreases from - at,
    {
        out.push(list[at]);
        at += 1;
        assert(out@ =~= list@.take(at as int));
    }
    let mut mid: usize = 0;
    assert(out@ =~= list@.take(from as int) + part@.take(0));
    while mid < part.len()
        invariant
            mid <= part@.len(),
            out@ == list@.take(from as int) + part@.take(mid as int),
        decreases part@.len() - mid,
    {
        out.push(part[mid]);
        mid += 1;
        assert(out@ =~= list@.take(from as int) + part@.take(mid as int));
    }
    assert(part@.take(mid as int) =~= part@);
    let mut rest: usize = to;
    assert(out@ =~= list@.take(from as int) + part@ + list@.subrange(to as int, to as int));
    while rest < list.len()
        invariant
            to <= rest <= list@.len(),
            out@ == list@.take(from as int) + part@ + list@.subrange(to as int, rest as int),
        decreases list@.len() - rest,
    {
        out.push(list[rest]);
        rest += 1;
        assert(out@ =~= list@.take(from as int) + part@ + list@.subrange(to as int, rest as int));
    }
    assert(list@.subrange(to as int, rest as int) =~= list@.skip(to as int));
    out
}

/// Copies of a part of a list of tokens.
fn tokens_between<R: LexerRoot>(list: &Vec<LexicalOccurrence<R>>, from: usize, to: usize) -> (r: Vec<
    LexicalOccurrence<R>,
>)
    requires
        from <= to <= list@.len(),
    ensures
        occurrence_views(r@) == occurrence_views(list@).subrange(from as int, to as int),
{
    let mut out: Vec<LexicalOccurrence<R>> = Vec::new();
    let mut at: usize = from;
    while at < to
        invariant
            from <= at <= to <= list@.len(),
            out@.len() == at - from,
            forall|i: int| 0 <= i < at - from ==> (#[trigger] out@[i])@ == list@[from + i]@,
        decreases to - at,
    {
        out.push(list[at].copied());
        at += 1;
    }
    assert(occurrence_views(out@) =~= occurrence_views(list@).subrange(from as int, to as int));
    out
}

/// Copies of tokens.
pub(crate) fn copy_tokens<R: LexerRoot>(list: &Vec<LexicalOccurrence<R>>) -> (r: Vec<
    LexicalOccurrence<R>,
>)
    ensures
        occurrence_views(r@) == occurrence_views(list@),
{
    let r = tokens_between(list, 0, list.len());
    assert(occurrence_views(list@).subrange(0, list@.len() as int) =~= occurrence_views(list@));
    r
}

/// What the parser sees of tokens.
fn refs_of<R: LexerRoot>(list: &Vec<LexicalOccurrence<R>>) -> (r: Vec<ParseTokenRef>)
    ensures
        r@ == parse_tokens(occurrence_views(list@)),
{
    let ghost views = occurrence_views(list@);
    let mut out: Vec<ParseTokenRef> = Vec::new();
    let mut at: usize = 0;
    assert(views.take(0) =~= Seq::<OccurrenceView<R>>::empty());
    while at < list.len()
        invariant
            at <= list@.len(),
            views == occurrence_views(list@),
            out@ == parse_tokens(views.take(at as int)),
        decreases list@.len() - at,
    {
        let token = &list[at];
        proof {
            assert(views[at as int] == token@);
            assert(views.take(at as int + 1).drop_last() =~= views.take(at as int));
        }
        if token.is_semantic() {
            out.push(
                ParseTokenRef {
                    occurrence: token.id,
                    terminal: token.terminal,
                    error: token.error.is_some(),
                },
            );
        }
        at += 1;
    }
    assert(views.take(at as int) =~= views);
    out
}

/// What editors see of tokens.
fn layouts_of<R: LexerRoot>(list: &Vec<LexicalOccurrence<R>>) -> (r: Vec<TokenLayoutEntry>)
    ensures
        r@ == layout_entries(occurrence_views(list@)),
{
    let ghost views = occurrence_views(list@);
    let mut out: Vec<TokenLayoutEntry> = Vec::new();
    let mut at: usize = 0;
    while at < list.len()
        invariant
            at <= list@.len(),
            views == occurrence_views(list@),
            out@.len() == at,
            forall|i: int| 0 <= i < at ==> #[trigger] out@[i] == layout_entry(views[i]),
        decreases list@.len() - at,
    {
        let token = &list[at];
        assert(views[at as int] == token@);
        out.push(
            TokenLayoutEntry {
                occurrence: token.id,
                byte_len: token.byte_len,
                terminal: token.terminal,
                skip: token.skip,
                error: token.error.is_some(),
                fingerprint: token.fingerprint(),
            },
        );
        at += 1;
    }
    assert(out@ =~= layout_entries(views));
    out
}

/// The length of tokens in the text; none where it is no number.
fn total_bytes<R: LexerRoot>(list: &Vec<LexicalOccurrence<R>>) -> (r: Option<usize>)
    ensures
        match r {
            Some(total) => total == bytes_of(occurrence_views(list@)),
            None => bytes_of(occurrence_views(list@)) > usize::MAX,
        },
{
    let ghost views = occurrence_views(list@);
    let mut sum: usize = 0;
    let mut at: usize = 0;
    assert(views.take(0) =~= Seq::<OccurrenceView<R>>::empty());
    while at < list.len()
        invariant
            at <= list@.len(),
            views == occurrence_views(list@),
            sum == bytes_of(views.take(at as int)),
        decreases list@.len() - at,
    {
        proof {
            assert(views[at as int] == list@[at as int]@);
            assert(views.take(at as int + 1).drop_last() =~= views.take(at as int));
            lemma_start_grows(views, at as int + 1, views.len() as int);
            assert(views.take(views.len() as int) =~= views);
        }
        let width: usize = list[at].byte_len as usize;
        if sum > usize::MAX - width {
            return None;
        }
        sum = sum + width;
        at += 1;
    }
    assert(views.take(at as int) =~= views);
    Some(sum)
}

/// What the parser sees in two windows is the same in number and kind.
pub open spec fn same_kinds(a: Seq<ParseTokenRef>, b: Seq<ParseTokenRef>) -> bool {
    &&& a.len() == b.len()
    &&& forall|i: int|
        0 <= i < a.len() ==> (#[trigger] a[i]).terminal == b[i].terminal && a[i].error == b[i].error
}

fn kinds_agree(a: &Vec<ParseTokenRef>, b: &Vec<ParseTokenRef>) -> (r: bool)
    ensures
        r == same_kinds(a@, b@),
{
    if a.len() != b.len() {
        return false;
    }
    let mut at: usize = 0;
    while at < a.len()
        invariant
            at <= a@.len(),
            a@.len() == b@.len(),
            forall|i: int|
                0 <= i < at ==> (#[trigger] a@[i]).terminal == b@[i].terminal && a@[i].error
                    == b@[i].error,
        decreases a@.len() - at,
    {
        let alike = match (a[at].terminal, b[at].terminal) {
            (Some(x), Some(y)) => x == y,
            (None, None) => true,
            _ => false,
        };
        if !alike || a[at].error != b[at].error {
            return false;
        }
        at += 1;
    }
    true
}

/// The tokens of a window that was read again.
pub open spec fn window_tokens<R>(
    v: LexicalView<R>,
    restart: int,
    until: int,
    tokens: Seq<OccurrenceView<R>>,
) -> Seq<OccurrenceView<R>> {
    named(v.lexical.subrange(restart, until), tokens, v.next_occurrence)
}

/// The document after a window was read again: the tokens before and behind it
/// stay.
pub open spec fn relexed<R>(
    v: LexicalView<R>,
    restart: int,
    until: int,
    tokens: Seq<OccurrenceView<R>>,
    source: Seq<char>,
) -> LexicalView<R> {
    let past = v.lexical.subrange(restart, until);
    let now = window_tokens(v, restart, until, tokens);
    let seen = parse_tokens(past);
    LexicalView {
        source,
        lexical: v.lexical.take(restart) + now + v.lexical.skip(until),
        next_occurrence: (v.next_occurrence + strangers(past, tokens, tokens.len() as int)) as u64,
        layout_revision: LayoutRevisionId((v.layout_revision.0 + 1) as u64),
        value_revision: if changed_ids(past, now, seen, now.len() as int)
            =~= Set::<TokenOccurrenceId>::empty() {
            v.value_revision
        } else {
            TokenValueRevisionId((v.value_revision.0 + 1) as u64)
        },
        structure_revision: if same_kinds(seen, parse_tokens(now)) {
            v.structure_revision
        } else {
            TokenStructureRevisionId((v.structure_revision.0 + 1) as u64)
        },
        ..v
    }
}

/// What reading a window again does to the tokens that the parser sees.
pub open spec fn relex_patch<R>(
    v: LexicalView<R>,
    restart: int,
    until: int,
    tokens: Seq<OccurrenceView<R>>,
    patch: LocalPatch,
) -> bool {
    let past = v.lexical.subrange(restart, until);
    let now = window_tokens(v, restart, until, tokens);
    let seen = parse_tokens(past);
    let sees = parse_tokens(now);
    let first = parse_tokens(v.lexical.take(restart)).len() as int;
    &&& splice_views(patch.splices@) == window_splice(
        parse_tokens(v.lexical),
        first,
        first + seen.len(),
        seen,
        sees,
    )
    &&& patch.inserted@ == distinct_sorted(ids_of(sees).to_set().difference(ids_of(seen).to_set()))
    &&& patch.removed@ == distinct_sorted(ids_of(seen).to_set().difference(ids_of(sees).to_set()))
    &&& v.next_occurrence + strangers(past, tokens, tokens.len() as int) <= u64::MAX
    &&& strictly_ascending(patch.updated@)
    &&& patch.updated@.to_set() == changed_ids(past, now, seen, now.len() as int)
    &&& patch.replayed == tokens.len()
    &&& patch.reused == v.lexical.len() - until
}

/// What is counted of putting a window in place.
pub open spec fn window_work<R>(
    v: LexicalView<R>,
    restart: int,
    until: int,
    tokens: Seq<OccurrenceView<R>>,
    patch: LocalPatch,
) -> LexerWork {
    let seen = parse_tokens(v.lexical.subrange(restart, until));
    let sees = parse_tokens(window_tokens(v, restart, until, tokens));
    let moved: u64 = if until < v.lexical.len() {
        1
    } else {
        0
    };
    LexerWork {
        restart_occurrences: restart as u64,
        lexical_entries_visited: counted((until - restart) + tokens.len()),
        semantic_entries_visited: counted((seen.len() + sees.len()) as int),
        tokens_replayed: tokens.len() as u64,
        tokens_reused: (v.lexical.len() - until) as u64,
        tokens_inserted: patch.inserted@.len() as u64,
        tokens_removed: patch.removed@.len() as u64,
        token_fact_writes: counted((patch.inserted@.len() + patch.updated@.len()) as int),
        transferred_tape_intervals: moved,
        tape_nodes_reused: moved,
        ..no_lexer_work()
    }
}

/// What is counted of reading a window again.
pub open spec fn relex_work<R>(
    v: LexicalView<R>,
    restart: int,
    until: int,
    window: Window<R>,
    patch: LocalPatch,
) -> LexerWork {
    LexerWork {
        checkpoint_lookups: 2,
        restart_bytes: start_of(v.lexical, restart) as u64,
        convergence_checks: window.checks,
        convergence_candidates: window.checks,
        eof_replays: if window.convergence is None {
            1
        } else {
            0
        },
        ..window_work(v, restart, until, occurrence_views(window.tokens@), patch)
    }
}

proof fn lemma_rank_grows<R>(list: Seq<OccurrenceView<R>>, a: int, b: int)
    requires
        0 <= a <= b,
    ensures
        rank_at(list, a) <= rank_at(list, b),
{
    lemma_rank_at(list, a);
    lemma_rank_at(list, b);
    let i = rank_at(list, a);
    let j = rank_at(list, b);
    if j < i {
        lemma_start_grows(list, j + 1, i);
    }
}

/// Partners are in the old window, and no two tokens share one.
proof fn lemma_partners<R>(past: Seq<OccurrenceView<R>>, tokens: Seq<OccurrenceView<R>>, i: int, j: int)
    requires
        0 <= i < j < tokens.len(),
    ensures
        partner(past, tokens, i) is Some ==> 0 <= partner(past, tokens, i)->Some_0 < past.len(),
        partner(past, tokens, j) is Some ==> 0 <= partner(past, tokens, j)->Some_0 < past.len(),
        partner(past, tokens, i) is Some && partner(past, tokens, j) is Some ==> partner(
            past,
            tokens,
            i,
        )->Some_0 != partner(past, tokens, j)->Some_0,
{
    lemma_shared_ends(nameless_all(past), nameless_all(tokens));
}

proof fn lemma_partner_in<R>(past: Seq<OccurrenceView<R>>, tokens: Seq<OccurrenceView<R>>, i: int)
    requires
        0 <= i < tokens.len(),
    ensures
        partner(past, tokens, i) is Some ==> 0 <= partner(past, tokens, i)->Some_0 < past.len(),
{
    lemma_shared_ends(nameless_all(past), nameless_all(tokens));
}

proof fn lemma_strangers<R>(past: Seq<OccurrenceView<R>>, tokens: Seq<OccurrenceView<R>>, i: int, j: int)
    requires
        0 <= i <= j,
    ensures
        strangers(past, tokens, i) <= strangers(past, tokens, j),
        i < j && partner(past, tokens, i) is None ==> strangers(past, tokens, i) < strangers(
            past,
            tokens,
            j,
        ),
    decreases j - i,
{
    if i < j {
        lemma_strangers(past, tokens, i, j - 1);
    }
}

/// Identities stay distinct where a window gets its own.
pub proof fn lemma_identities<R>(
    list: Seq<OccurrenceView<R>>,
    next: u64,
    restart: int,
    until: int,
    tokens: Seq<OccurrenceView<R>>,
)
    requires
        identities_differ(list, next),
        0 <= restart <= until <= list.len(),
        next + strangers(list.subrange(restart, until), tokens, tokens.len() as int) <= u64::MAX,
    ensures
        identities_differ(
            list.take(restart) + named(list.subrange(restart, until), tokens, next) + list.skip(
                until,
            ),
            (next + strangers(list.subrange(restart, until), tokens, tokens.len() as int)) as u64,
        ),
{
    let past = list.subrange(restart, until);
    let now = named(past, tokens, next);
    let all = list.take(restart) + now + list.skip(until);
    let end = next + strangers(past, tokens, tokens.len() as int);
    let n = tokens.len() as int;
    assert forall|i: int| 0 <= i < n implies (#[trigger] now[i]).id.0 < end && (
    partner(past, tokens, i) is Some ==> now[i].id == list[restart + partner(
        past,
        tokens,
        i,
    )->Some_0].id) && (partner(past, tokens, i) is None ==> now[i].id.0 == next + strangers(
        past,
        tokens,
        i,
    )) by {
        lemma_partner_in(past, tokens, i);
        lemma_strangers(past, tokens, i, n);
        if let Some(k) = partner(past, tokens, i) {
            assert(past[k] == list[restart + k]);
        }
    }
    assert forall|i: int| 0 <= i < all.len() implies (#[trigger] all[i]).id.0 < end by {
        if i < restart {
            assert(all[i] == list[i]);
        } else if i < restart + n {
            assert(all[i] == now[i - restart]);
        } else {
            assert(all[i] == list[until + (i - restart - n)]);
        }
    }
    assert forall|i: int, j: int| 0 <= i < j < all.len() implies (#[trigger] all[i]).id != (
    #[trigger] all[j]).id by {
        let a = if i < restart {
            i
        } else if i < restart + n {
            -1
        } else {
            until + (i - restart - n)
        };
        let b = if j < restart {
            j
        } else if j < restart + n {
            -1
        } else {
            until + (j - restart - n)
        };
        if a >= 0 {
            assert(all[i] == list[a]);
        } else {
            assert(all[i] == now[i - restart]);
            lemma_partner_in(past, tokens, i - restart);
        }
        if b >= 0 {
            assert(all[j] == list[b]);
        } else {
            assert(all[j] == now[j - restart]);
            lemma_partner_in(past, tokens, j - restart);
        }
        if a < 0 && b < 0 {
            lemma_partners(past, tokens, i - restart, j - restart);
            lemma_strangers(past, tokens, i - restart, j - restart);
        }
    }
}

/// What the parser sees before, in and behind a window.
proof fn lemma_seen_in_parts<R>(list: Seq<OccurrenceView<R>>, restart: int, until: int)
    requires
        0 <= restart <= until <= list.len(),
    ensures
        ({
            let a = parse_tokens(list.take(restart));
            let b = parse_tokens(list.subrange(restart, until));
            let c = parse_tokens(list.skip(until));
            &&& parse_tokens(list) == a + b + c
            &&& parse_tokens(list).take(a.len() as int) == a
            &&& parse_tokens(list).skip((a.len() + b.len()) as int) == c
        }),
{
    let head = list.take(restart);
    let mid = list.subrange(restart, until);
    let rest = list.skip(until);
    assert(list =~= head + mid + rest);
    lemma_parse_tokens_join(head, mid);
    lemma_parse_tokens_join(head + mid, rest);
    let a = parse_tokens(head);
    let b = parse_tokens(mid);
    let c = parse_tokens(rest);
    assert((a + b + c).take(a.len() as int) =~= a);
    assert((a + b + c).skip((a.len() + b.len()) as int) =~= c);
}

/// What the parser sees where a window has other tokens.
proof fn lemma_seen_after<R>(
    list: Seq<OccurrenceView<R>>,
    restart: int,
    until: int,
    now: Seq<OccurrenceView<R>>,
)
    requires
        0 <= restart <= until <= list.len(),
    ensures
        parse_tokens(list.take(restart) + now + list.skip(until)) == parse_tokens(
            list.take(restart),
        ) + parse_tokens(now) + parse_tokens(list.skip(until)),
{
    lemma_parse_tokens_join(list.take(restart), now);
    lemma_parse_tokens_join(list.take(restart) + now, list.skip(until));
}

/// Why new tokens could not be put in place: no identity is left for them, or
/// the tokens are too long together.
pub open spec fn install_fails<R>(
    v: LexicalView<R>,
    restart: int,
    until: int,
    tokens: Seq<OccurrenceView<R>>,
    fault: LexFault,
) -> bool {
    if v.next_occurrence + strangers(
        v.lexical.subrange(restart, until),
        tokens,
        tokens.len() as int,
    ) > u64::MAX {
        fault == LexFault::IdentitiesExhausted
    } else {
        fault == LexFault::LengthOverflow && bytes_of(
            v.lexical.take(restart) + window_tokens(v, restart, until, tokens) + v.lexical.skip(
                until,
            ),
        ) > usize::MAX
    }
}

/// Puts tokens that were read again in the place of old ones. Where that cannot
/// be done, nothing changes.
pub fn install_window<R: LexerRoot>(
    document: &mut LexicalDocument<R>,
    restart: usize,
    until: usize,
    tokens: Vec<LexicalOccurrence<R>>,
    next_source: ropey::Rope,
) -> (r: Result<LocalPatch, LexFault>)
    requires
        old(document).wf(),
        restart <= until <= old(document)@.lexical.len(),
        old(document)@.layout_revision.0 < u64::MAX,
        old(document)@.value_revision.0 < u64::MAX,
        old(document)@.structure_revision.0 < u64::MAX,
    ensures
        match r {
            Ok(patch) => {
                &&& final(document).wf()
                &&& final(document)@ == relexed(
                    old(document)@,
                    restart as int,
                    until as int,
                    occurrence_views(tokens@),
                    rope_chars(next_source),
                )
                &&& relex_patch(
                    old(document)@,
                    restart as int,
                    until as int,
                    occurrence_views(tokens@),
                    patch,
                )
                &&& patch.work == window_work(
                    old(document)@,
                    restart as int,
                    until as int,
                    occurrence_views(tokens@),
                    patch,
                )
            },
            Err(fault) => {
                &&& *final(document) == *old(document)
                &&& install_fails(
                    old(document)@,
                    restart as int,
                    until as int,
                    occurrence_views(tokens@),
                    fault,
                )
            },
        },
{
    let ghost v = document@;
    let ghost given = occurrence_views(tokens@);
    let ghost past_views = v.lexical.subrange(restart as int, until as int);
    let old_total: usize = document.lexical.len();
    let past = tokens_between(&document.lexical, restart, until);
    let mut now = tokens;
    let mut next: u64 = document.next_occurrence;
    match reconcile_occurrence_ids(&mut next, &past, &mut now) {
        Ok(_) => {},
        Err(fault) => {
            return Err(fault);
        },
    }
    let ghost now_views = window_tokens(v, restart as int, until as int, given);
    assert(occurrence_views(now@) == now_views);
    let seen = refs_of(&past);
    let sees = refs_of(&now);
    let head = tokens_between(&document.lexical, 0, restart);
    let first: usize = refs_of(&head).len();
    proof {
        assert(v.lexical.subrange(0, restart as int) =~= v.lexical.take(restart as int));
        lemma_seen_in_parts(v.lexical, restart as int, until as int);
        assert(first + seen@.len() <= document.semantic.len());
    }
    let last: usize = first + seen.len();
    let mut patch = direct_patch(&document.semantic, &past, &now, &seen, &sees, first, last);
    let lexical = joined_tokens(&document.lexical, restart, until, &now);
    let ghost all = v.lexical.take(restart as int) + now_views + v.lexical.skip(until as int);
    assert(occurrence_views(lexical@) == all);
    if total_bytes(&lexical).is_none() {
        return Err(LexFault::LengthOverflow);
    }
    let semantic = with_part(&document.semantic, first, last, &sees);
    let layout = with_part(&document.layout, restart, until, &layouts_of(&now));
    proof {
        lemma_seen_after(v.lexical, restart as int, until as int, now_views);
        assert(semantic@ == parse_tokens(all));
        assert(layout@ =~= layout_entries(all));
        lemma_identities(v.lexical, v.next_occurrence, restart as int, until as int, given);
    }
    let value_changed = patch.updated.len() > 0;
    proof {
        let changed_set = changed_ids(past_views, now_views, seen@, now_views.len() as int);
        assert(value_changed == !(changed_set =~= Set::<TokenOccurrenceId>::empty())) by {
            if value_changed {
                assert(patch.updated@.to_set().contains(patch.updated@[0]));
            } else {
                assert(patch.updated@.to_set() =~= Set::<TokenOccurrenceId>::empty());
            }
        }
    }
    let same = kinds_agree(&seen, &sees);
    document.lexical = lexical;
    document.semantic = semantic;
    document.layout = layout;
    document.source = next_source;
    document.next_occurrence = next;
    document.layout_revision = LayoutRevisionId(document.layout_revision.0 + 1);
    if value_changed {
        document.value_revision = TokenValueRevisionId(document.value_revision.0 + 1);
    }
    if !same {
        document.structure_revision = TokenStructureRevisionId(document.structure_revision.0 + 1);
    }
    patch.replayed = now.len();
    patch.reused = old_total - until;
    let moved: u64 = if until < old_total {
        1
    } else {
        0
    };
    patch.work = LexerWork {
        restart_occurrences: restart as u64,
        lexical_entries_visited: count_both(until - restart, now.len()),
        semantic_entries_visited: count_both(seen.len(), sees.len()),
        tokens_replayed: now.len() as u64,
        tokens_reused: (old_total - until) as u64,
        tokens_inserted: patch.inserted.len() as u64,
        tokens_removed: patch.removed.len() as u64,
        token_fact_writes: count_both(patch.inserted.len(), patch.updated.len()),
        transferred_tape_intervals: moved,
        tape_nodes_reused: moved,
        ..LexerWork::default()
    };
    proof {
        let want = relexed(v, restart as int, until as int, given, rope_chars(next_source));
        assert(document@.lexical == all);
        assert(document@ =~= want);
    }
    Ok(patch)
}

/// Lexes a window of a document again: from the token at an edit on, up to where
/// the rest goes on as it did.
pub fn relex_splice<R: LexerRoot, S: Scanner<R>>(
    scanner: &S,
    document: &mut LexicalDocument<R>,
    next_source: ropey::Rope,
    splice: &SourceSplice,
) -> (r: Result<LocalPatch, LexInterrupt>)
    requires
        old(document).wf(),
        splice.old_range.start <= splice.old_range.end,
    ensures
        match r {
            Ok(patch) => {
                &&& final(document).wf()
                &&& read_again(
                    *scanner,
                    old(document)@,
                    final(document)@,
                    *splice,
                    next_source,
                    patch,
                )
            },
            Err(error) => {
                &&& final(document).wf()
                &&& final(document)@ == old(document)@
                &&& relex_fails(*scanner, old(document)@, *splice, next_source, error)
            },
        },
{
    let ghost v = document@;
    let old_total: usize = document.lexical.len();
    let old_len: usize = rope_len_bytes(&document.source);
    let new_len: usize = rope_len_bytes(&next_source);
    if old_len > isize::MAX as usize || new_len > isize::MAX as usize {
        return Err(LexInterrupt::InternalError(LexFault::LengthOverflow));
    }
    if document.layout_revision.0 == u64::MAX || document.value_revision.0 == u64::MAX
        || document.structure_revision.0 == u64::MAX {
        return Err(LexInterrupt::InternalError(LexFault::RevisionsExhausted));
    }
    let restart: usize = document.lexical_rank_at_byte(splice.old_range.start);
    proof {
        lemma_rank_at(v.lexical, splice.old_range.start as int);
    }
    let restart_byte: usize = document.lexical_start(restart);
    let window = match scan_window(scanner, &*document, &next_source, splice) {
        Ok(window) => window,
        Err(error) => {
            return Err(error);
        },
    };
    let until: usize = match window.convergence {
        Some(rank) => rank,
        None => old_total,
    };
    proof {
        assert(v.lexical.len() == old_total);
        lemma_rank_at(v.lexical, splice.old_range.start as int);
        if window.convergence is Some {
            let at = old_place(window.end.offset as int, old_len as int, new_len as int)->Some_0;
            lemma_rank_grows(v.lexical, splice.old_range.start as int, at);
            lemma_rank_at(v.lexical, at);
        }
    }
    let ghost read = window;
    let checks: u64 = window.checks;
    let ran_on: u64 = if window.convergence.is_none() {
        1
    } else {
        0
    };
    let mut patch = match install_window(document, restart, until, window.tokens, next_source) {
        Ok(patch) => patch,
        Err(fault) => {
            return Err(LexInterrupt::InternalError(fault));
        },
    };
    patch.work = LexerWork {
        checkpoint_lookups: 2,
        restart_bytes: restart_byte as u64,
        convergence_checks: checks,
        convergence_candidates: checks,
        eof_replays: ran_on,
        ..patch.work
    };
    assert(relexed_by(*scanner, v, document@, *splice, next_source, read, patch));
    assert(read_again(*scanner, v, document@, *splice, next_source, patch));
    Ok(patch)
}

/// Why a window could not be put in place.
pub open spec fn window_fails<R, S: Scanner<R>>(
    scanner: S,
    v: LexicalView<R>,
    splice: SourceSplice,
    next_source: ropey::Rope,
    fault: LexFault,
) -> bool {
    exists|window: Window<R>| #[trigger]
        is_window(scanner, v, splice, next_source, window) && install_fails(
            v,
            rank_at(v.lexical, splice.old_range.start as int),
            match window.convergence {
                Some(rank) => rank as int,
                None => v.lexical.len() as int,
            },
            occurrence_views(window.tokens@),
            fault,
        )
}

/// Why a window was not read again: a length or the revisions do not fit, the
/// scanner failed, or the window could not be put in place.
pub open spec fn relex_fails<R, S: Scanner<R>>(
    scanner: S,
    v: LexicalView<R>,
    splice: SourceSplice,
    next_source: ropey::Rope,
    error: LexInterrupt,
) -> bool {
    let too_long = vstd::utf8::encode_utf8(v.source).len() > isize::MAX || rope_bytes(
        next_source,
    ).len() > isize::MAX;
    let no_revision = v.layout_revision.0 == u64::MAX || v.value_revision.0 == u64::MAX
        || v.structure_revision.0 == u64::MAX;
    if too_long {
        error == LexInterrupt::InternalError(LexFault::LengthOverflow)
    } else if no_revision {
        error == LexInterrupt::InternalError(LexFault::RevisionsExhausted)
    } else {
        ||| reading_fails(scanner, v, splice, next_source, error)
        ||| error is InternalError && window_fails(
            scanner,
            v,
            splice,
            next_source,
            error->InternalError_0,
        )
    }
}

/// Some window was read again, and took the place of the old tokens.
pub open spec fn read_again<R, S: Scanner<R>>(
    scanner: S,
    v: LexicalView<R>,
    w: LexicalView<R>,
    splice: SourceSplice,
    next_source: ropey::Rope,
    patch: LocalPatch,
) -> bool {
    exists|window: Window<R>| #[trigger]
        relexed_by(scanner, v, w, splice, next_source, window, patch)
}

/// A window was read again, and took the place of the old tokens.
pub open spec fn relexed_by<R, S: Scanner<R>>(
    scanner: S,
    v: LexicalView<R>,
    w: LexicalView<R>,
    splice: SourceSplice,
    next_source: ropey::Rope,
    window: Window<R>,
    patch: LocalPatch,
) -> bool {
    let restart = rank_at(v.lexical, splice.old_range.start as int);
    let until = match window.convergence {
        Some(rank) => rank as int,
        None => v.lexical.len() as int,
    };
    let tokens = occurrence_views(window.tokens@);
    &&& restart <= until <= v.lexical.len()
    &&& is_window(scanner, v, splice, next_source, window)
    &&& w == relexed(v, restart, until, tokens, rope_chars(next_source))
    &&& relex_patch(v, restart, until, tokens, patch)
    &&& patch.work == relex_work(v, restart, until, window, patch)
}

/// A list of tokens with another part.
fn joined_tokens<R: LexerRoot>(
    list: &Vec<LexicalOccurrence<R>>,
    from: usize,
    to: usize,
    part: &Vec<LexicalOccurrence<R>>,
) -> (r: Vec<LexicalOccurrence<R>>)
    requires
        from <= to <= list@.len(),
    ensures
        occurrence_views(r@) == occurrence_views(list@).take(from as int) + occurrence_views(part@)
            + occurrence_views(list@).skip(to as int),
{
    let mut out = tokens_between(list, 0, from);
    let mut mid = tokens_between(part, 0, part.len());
    let mut rest = tokens_between(list, to, list.len());
    proof {
        let all = occurrence_views(list@);
        assert(all.subrange(0, from as int) =~= all.take(from as int));
        assert(all.subrange(to as int, all.len() as int) =~= all.skip(to as int));
        let more = occurrence_views(part@);
        assert(more.subrange(0, more.len() as int) =~= more);
    }
    let ghost a = out@;
    let ghost b = mid@;
    let ghost c = rest@;
    out.append(&mut mid);
    out.append(&mut rest);
    assert(out@ == a + b + c);
    assert(occurrence_views(a + b + c) =~= occurrence_views(a) + occurrence_views(b)
        + occurrence_views(c));
    out
}

} // verus!
