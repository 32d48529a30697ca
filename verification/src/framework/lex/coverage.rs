//! The tokens of a document cover its text, and a new document is one reading
//! of it.

use vstd::prelude::*;
use vstd::utf8::encode_utf8;

use crate::framework::lex::derive::{
    blank, command_splices, derivation, delta_fits, derived, evolving, put_in, stage_follows, stage_leads,
    stages_follow, LexDocument, Stage,
};
use crate::framework::lex::lexed::{
    bytes_of, lemma_bytes_join, lemma_rank_at, occurrence_views, rank_at, start_of,
    LexicalView, OccurrenceView, StableDocumentId, TokenOccurrenceId,
};
use crate::framework::lex::mode::{stack_view, LexerState, State, StateView};
use crate::framework::lex::patch::{named, nameless_all, partner, strangers, LocalPatch};
use crate::framework::lex::relex::{
    is_reading, occurrence_of, read_again, reading_of, relexed_by, state_at,
    width_of, window_tokens, Scanned, Scanner, Window,
};
use crate::framework::lex::token::LexerRoot;
use crate::framework::source::{SourceDelta, SourceSplice};
use crate::text::{rope_bytes, rope_chars};

verus! {

/// The tokens stand one behind the other from the start of the text to its end.
pub open spec fn covers<R>(v: LexicalView<R>) -> bool {
    bytes_of(v.lexical) == encode_utf8(v.source).len()
}

/// A step reads on from where the lexer stands: its token starts there, and the
/// lexer stands at its end afterwards.
pub open spec fn reads_on<R>(state: LexerState, source: ropey::Rope, step: Scanned<R>) -> bool {
    &&& step.token.start == state.offset
    &&& step.token.start <= step.token.end
    &&& step.token.end == step.after.offset
    &&& step.after.offset <= rope_bytes(source).len()
    &&& width_of(step.token) <= u32::MAX
}

/// A scanner that leaves nothing out: each token starts where the one before it
/// ended, none is wider than a token can be, and it stops at the end of the
/// text only.
pub open spec fn leaves_nothing_out<R, S: Scanner<R>>(scanner: S) -> bool {
    &&& forall|state: LexerState, source: ropey::Rope, step: Scanned<R>| #[trigger]
        scanner.reads(state, source, Ok(Some(step))) ==> reads_on(state, source, step)
    &&& forall|state: LexerState, source: ropey::Rope| #[trigger]
        scanner.reads(state, source, Ok(None)) ==> state.offset >= rope_bytes(source).len()
}

/// The tokens of some steps.
pub open spec fn tokens_of<R>(steps: Seq<Scanned<R>>) -> Seq<OccurrenceView<R>> {
    Seq::new(steps.len(), |i: int| occurrence_of(steps[i]))
}

/// Steps that leave nothing out end where their tokens do.
proof fn lemma_reading_advances<R, S: Scanner<R>>(
    scanner: S,
    from: LexerState,
    source: ropey::Rope,
    steps: Seq<Scanned<R>>,
)
    requires
        leaves_nothing_out(scanner),
        is_reading(scanner, from, source, steps),
    ensures
        state_at(from, steps, steps.len() as int).offset == from.offset + bytes_of(
            tokens_of(steps),
        ),
        steps.len() > 0 ==> state_at(from, steps, steps.len() as int).offset <= rope_bytes(
            source,
        ).len(),
    decreases steps.len(),
{
    if steps.len() > 0 {
        let rest = steps.drop_last();
        let last = steps.len() - 1;
        assert forall|i: int| 0 <= i < rest.len() implies scanner.reads(
            state_at(from, rest, i),
            source,
            Ok(Some(#[trigger] rest[i])),
        ) by {
            assert(rest[i] == steps[i]);
            assert(state_at(from, rest, i) == state_at(from, steps, i));
        }
        lemma_reading_advances(scanner, from, source, rest);
        assert(state_at(from, rest, rest.len() as int) == state_at(from, steps, last));
        assert(scanner.reads(state_at(from, steps, last), source, Ok(Some(steps[last]))));
        assert(reads_on(state_at(from, steps, last), source, steps[last]));
        assert(tokens_of(steps).drop_last() =~= tokens_of(rest));
    }
}

/// Identities do not change how long tokens are.
proof fn lemma_named_bytes<R>(
    old: Seq<OccurrenceView<R>>,
    new: Seq<OccurrenceView<R>>,
    next: u64,
    upto: int,
)
    requires
        0 <= upto <= new.len(),
    ensures
        bytes_of(named(old, new, next).take(upto)) == bytes_of(new.take(upto)),
    decreases upto,
{
    if upto > 0 {
        lemma_named_bytes(old, new, next, upto - 1);
        let a = named(old, new, next).take(upto);
        let b = new.take(upto);
        assert(a.drop_last() =~= named(old, new, next).take(upto - 1));
        assert(b.drop_last() =~= new.take(upto - 1));
    }
}

/// What tokens come to when some of them are replaced.
proof fn lemma_spliced_bytes<R>(
    list: Seq<OccurrenceView<R>>,
    restart: int,
    until: int,
    now: Seq<OccurrenceView<R>>,
)
    requires
        0 <= restart <= until <= list.len(),
    ensures
        bytes_of(list.take(restart) + now + list.skip(until)) == start_of(list, restart) + bytes_of(
            now,
        ) + bytes_of(list) - start_of(list, until),
        until == list.len() ==> start_of(list, until) == bytes_of(list),
{
    lemma_bytes_join(list.take(restart), now);
    lemma_bytes_join(list.take(restart) + now, list.skip(until));
    lemma_bytes_join(list.take(until), list.skip(until));
    assert(list.take(until) + list.skip(until) =~= list);
    assert(list.take(list.len() as int) =~= list);
}

/// Where a reading that leaves nothing out comes to: to where the text goes on
/// as it did, or to its end.
proof fn lemma_reading_ends<R, S: Scanner<R>>(
    scanner: S,
    v: LexicalView<R>,
    splice: SourceSplice,
    source: ropey::Rope,
    from: LexerState,
    steps: Seq<Scanned<R>>,
    window: Window<R>,
)
    requires
        leaves_nothing_out(scanner),
        splice.old_range.start <= rope_bytes(source).len(),
        reading_of(scanner, v, splice, source, from, steps, window),
    ensures
        start_of(v.lexical, rank_at(v.lexical, splice.old_range.start as int)) + bytes_of(
            occurrence_views(window.tokens@),
        ) == match window.convergence {
            Some(rank) => start_of(v.lexical, rank as int) + rope_bytes(source).len() - encode_utf8(
                v.source,
            ).len(),
            None => rope_bytes(source).len() as int,
        },
{
    let tokens = occurrence_views(window.tokens@);
    let end = state_at(from, steps, steps.len() as int);
    let restart = rank_at(v.lexical, splice.old_range.start as int);
    lemma_reading_advances(scanner, from, source, steps);
    lemma_rank_at(v.lexical, splice.old_range.start as int);
    if steps.len() > 0 {
        let last = steps.len() - 1;
        assert(scanner.reads(state_at(from, steps, last), source, Ok(Some(steps[last]))));
        assert(reads_on(state_at(from, steps, last), source, steps[last]));
    }
    assert(tokens =~= tokens_of(steps));
    assert(from.offset == start_of(v.lexical, restart));
    if window.convergence is None {
        assert(scanner.reads(end, source, Ok(None)));
    }
}

/// A window that was read again covers the text where the old tokens did.
pub proof fn lemma_window_covers<R, S: Scanner<R>>(
    scanner: S,
    v: LexicalView<R>,
    w: LexicalView<R>,
    splice: SourceSplice,
    next_source: ropey::Rope,
    patch: LocalPatch,
)
    requires
        leaves_nothing_out(scanner),
        covers(v),
        splice.old_range.start <= rope_bytes(next_source).len(),
        read_again(scanner, v, w, splice, next_source, patch),
    ensures
        covers(w),
{
    let window = choose|window: Window<R>| #[trigger]
        relexed_by(scanner, v, w, splice, next_source, window, patch);
    let restart = rank_at(v.lexical, splice.old_range.start as int);
    let until = match window.convergence {
        Some(rank) => rank as int,
        None => v.lexical.len() as int,
    };
    let tokens = occurrence_views(window.tokens@);
    let now = window_tokens(v, restart, until, tokens);
    let (from, steps) = choose|from: LexerState, steps: Seq<Scanned<R>>| #[trigger]
        reading_of(scanner, v, splice, next_source, from, steps, window);
    assert(bytes_of(now) == bytes_of(tokens)) by {
        let past = v.lexical.subrange(restart, until);
        lemma_named_bytes(past, tokens, v.next_occurrence, tokens.len() as int);
        assert(now.take(tokens.len() as int) =~= now);
        assert(tokens.take(tokens.len() as int) =~= tokens);
    }
    assert(0 <= restart <= v.lexical.len()) by {
        lemma_rank_at(v.lexical, splice.old_range.start as int);
    }
    lemma_spliced_bytes(v.lexical, restart, until, now);
    lemma_reading_ends(scanner, v, splice, next_source, from, steps, window);
}

/// One splice keeps the text covered.
proof fn lemma_stage_covers<R, S: Scanner<R>>(
    scanner: S,
    from: Stage<R>,
    to: Stage<R>,
    splice: SourceSplice,
    inserted: Seq<u8>,
    text: ropey::Rope,
    patch: LocalPatch,
)
    requires
        leaves_nothing_out(scanner),
        covers(from.tokens),
        stage_leads(scanner, from, to, splice, inserted, text, patch),
    ensures
        covers(to.tokens),
{
    let bytes = encode_utf8(from.tokens.source);
    assert(bytes.take(splice.old_range.start as int).len() == splice.old_range.start);
    lemma_window_covers(scanner, from.tokens, to.tokens, splice, text, patch);
}

/// The tokens cover the text at each stage of a command.
proof fn lemma_stages_cover<R, S: Scanner<R>>(
    scanner: S,
    stages: Seq<Stage<R>>,
    new_bytes: Seq<u8>,
    splices: Seq<SourceSplice>,
    upto: int,
    i: int,
)
    requires
        leaves_nothing_out(scanner),
        stages_follow(scanner, stages, new_bytes, splices, upto),
        covers(stages[0].tokens),
        0 <= i <= upto,
    ensures
        covers(stages[i].tokens),
    decreases i,
{
    if i > 0 {
        let k = i - 1;
        lemma_stages_cover(scanner, stages, new_bytes, splices, upto, k);
        assert(stage_follows(scanner, stages, new_bytes, splices, k));
        let (text, patch) = choose|text: ropey::Rope, patch: LocalPatch| #[trigger]
            stage_leads(
                scanner,
                stages[k],
                stages[k + 1],
                evolving(splices, k),
                put_in(new_bytes, splices, k),
                text,
                patch,
            );
        lemma_stage_covers(
            scanner,
            stages[k],
            stages[k + 1],
            evolving(splices, k),
            put_in(new_bytes, splices, k),
            text,
            patch,
        );
    }
}

/// With a scanner that leaves nothing out, the tokens of a document cover its
/// text after a command where they did before. A document without tokens
/// covers its empty text, so the tokens cover the text after every command.
pub proof fn lemma_tokens_cover_the_text<R: LexerRoot, S: Scanner<R>>(
    scanner: S,
    v: LexicalView<R>,
    initializing: bool,
    source: ropey::Rope,
    delta: SourceDelta,
    result: LexDocument<R>,
)
    requires
        leaves_nothing_out(scanner),
        covers(v),
        derivation(scanner, v, initializing, source, delta, Ok(result)),
    ensures
        covers(result.document@),
        result.document@.source == rope_chars(source),
{
    let splices = command_splices(
        initializing,
        encode_utf8(v.source).len() as int,
        rope_bytes(source).len() as int,
        delta,
    );
    if v.source != rope_chars(source) {
        assert(delta_fits(encode_utf8(v.source), rope_bytes(source), splices));
        assert(derived(scanner, v, splices, rope_chars(source), result));
        let stages = choose|stages: Seq<Stage<R>>|
            {
                &&& #[trigger] stages_follow(
                    scanner,
                    stages,
                    encode_utf8(rope_chars(source)),
                    splices,
                    splices.len() as int,
                )
                &&& stages.last().tokens.source == rope_chars(source)
                &&& stages[0].tokens == v
                &&& result.document@.lexical == stages.last().tokens.lexical
                &&& result.document@.source == rope_chars(source)
            };
        lemma_stages_cover(
            scanner,
            stages,
            encode_utf8(rope_chars(source)),
            splices,
            splices.len() as int,
            splices.len() as int,
        );
    }
}

/// The tokens of a reading, numbered from zero.
pub open spec fn numbered<R>(steps: Seq<Scanned<R>>) -> Seq<OccurrenceView<R>> {
    Seq::new(
        steps.len(),
        |i: int| OccurrenceView { id: TokenOccurrenceId(i as u64), ..occurrence_of(steps[i]) },
    )
}

/// The tokens of a document are one reading of its text, from the start with
/// some open states to the end.
pub open spec fn read_through<R, S: Scanner<R>>(
    scanner: S,
    stack: Seq<StateView>,
    v: LexicalView<R>,
    text: ropey::Rope,
    from: LexerState,
    steps: Seq<Scanned<R>>,
) -> bool {
    &&& rope_chars(text) == v.source
    &&& from.offset == 0
    &&& stack_view(from.state_stack@) == stack
    &&& is_reading(scanner, from, text, steps)
    &&& state_at(from, steps, steps.len() as int).offset == rope_bytes(text).len()
    &&& v.lexical == numbered(steps)
}

/// Where no token was there before, all tokens are new.
proof fn lemma_all_strangers<R>(new: Seq<OccurrenceView<R>>, upto: int)
    requires
        0 <= upto <= new.len(),
    ensures
        strangers(Seq::<OccurrenceView<R>>::empty(), new, upto) == upto,
        forall|i: int|
            0 <= i < upto ==> (#[trigger] named(Seq::<OccurrenceView<R>>::empty(), new, 0)[i]).id
                == TokenOccurrenceId(i as u64),
    decreases upto,
{
    if upto > 0 {
        let old = Seq::<OccurrenceView<R>>::empty();
        lemma_all_strangers(new, upto - 1);
        assert(nameless_all(old).len() == 0);
        assert(partner(old, new, upto - 1) is None);
    }
}

/// A document that is opened is one reading of its text: the tokens are those
/// that the scanner reads from the start to the end, numbered in order.
pub proof fn lemma_opened_in_one_reading<R: LexerRoot, S: Scanner<R>>(
    scanner: S,
    document: StableDocumentId,
    root: State,
    source: ropey::Rope,
    delta: SourceDelta,
    result: LexDocument<R>,
)
    requires
        leaves_nothing_out(scanner),
        derivation(scanner, blank::<R>(document, root), true, source, delta, Ok(result)),
    ensures
        rope_chars(source).len() == 0 ==> result.document@.lexical.len() == 0,
        rope_chars(source).len() > 0 ==> exists|
            text: ropey::Rope,
            from: LexerState,
            steps: Seq<Scanned<R>>,
        | #[trigger]
            read_through(scanner, seq![root@], result.document@, text, from, steps),
{
    let v = blank::<R>(document, root);
    assert(covers(v)) by {
        lemma_empty_text();
    }
    lemma_tokens_cover_the_text(scanner, v, true, source, delta, result);
    let splices = command_splices(
        true,
        encode_utf8(v.source).len() as int,
        rope_bytes(source).len() as int,
        delta,
    );
    if rope_chars(source).len() == 0 {
        assert(rope_chars(source) =~= v.source);
    } else {
        assert(v.source != rope_chars(source));
        assert(derived(scanner, v, splices, rope_chars(source), result));
        let stages = choose|stages: Seq<Stage<R>>|
            {
                &&& #[trigger] stages_follow(
                    scanner,
                    stages,
                    encode_utf8(rope_chars(source)),
                    splices,
                    splices.len() as int,
                )
                &&& stages.last().tokens.source == rope_chars(source)
                &&& stages[0].tokens == v
                &&& result.document@.lexical == stages.last().tokens.lexical
                &&& result.document@.source == rope_chars(source)
            };
        assert(splices.len() == 1);
        assert(stage_follows(scanner, stages, encode_utf8(rope_chars(source)), splices, 0));
        let (text, patch) = choose|text: ropey::Rope, patch: LocalPatch| #[trigger]
            stage_leads(
                scanner,
                stages[0],
                stages[1],
                evolving(splices, 0),
                put_in(encode_utf8(rope_chars(source)), splices, 0),
                text,
                patch,
            );
        let splice = evolving(splices, 0);
        let w = stages[1].tokens;
        let window = choose|window: Window<R>| #[trigger]
            relexed_by(scanner, v, w, splice, text, window, patch);
        let (from, steps) = choose|from: LexerState, steps: Seq<Scanned<R>>| #[trigger]
            reading_of(scanner, v, splice, text, from, steps, window);
        lemma_window_is_reading(scanner, v, w, splice, text, patch, window, from, steps);
        assert(read_through(scanner, seq![root@], result.document@, text, from, steps));
    }
}

/// The empty text has no bytes.
proof fn lemma_empty_text()
    ensures
        encode_utf8(Seq::<char>::empty()).len() == 0,
{
}

/// The window of a document without tokens is all of it.
proof fn lemma_window_is_reading<R, S: Scanner<R>>(
    scanner: S,
    v: LexicalView<R>,
    w: LexicalView<R>,
    splice: SourceSplice,
    text: ropey::Rope,
    patch: LocalPatch,
    window: Window<R>,
    from: LexerState,
    steps: Seq<Scanned<R>>,
)
    requires
        leaves_nothing_out(scanner),
        v.lexical.len() == 0,
        v.next_occurrence == 0,
        encode_utf8(v.source).len() == 0,
        splice.old_range.start == 0,
        relexed_by(scanner, v, w, splice, text, window, patch),
        reading_of(scanner, v, splice, text, from, steps, window),
    ensures
        read_through(scanner, v.initial_state, w, text, from, steps),
{
    let tokens = occurrence_views(window.tokens@);
    let none = Seq::<OccurrenceView<R>>::empty();
    lemma_reading_ends(scanner, v, splice, text, from, steps, window);
    lemma_reading_advances(scanner, from, text, steps);
    lemma_rank_at(v.lexical, 0);
    if steps.len() > 0 {
        let last = steps.len() - 1;
        assert(scanner.reads(state_at(from, steps, last), text, Ok(Some(steps[last]))));
        assert(reads_on(state_at(from, steps, last), text, steps[last]));
    }
    assert(tokens =~= tokens_of(steps));
    assert(v.lexical =~= none);
    assert(v.lexical.take(0) =~= none);
    assert(v.lexical.skip(0) =~= none);
    assert(v.lexical.subrange(0, 0) =~= none);
    lemma_all_strangers(tokens, tokens.len() as int);
    let now = named(none, tokens, 0);
    assert(none + now + none =~= now);
    assert(now =~= numbered(steps));
}

} // verus!
