//! Reading again around an edit comes to what reading the whole text comes to.

use vstd::prelude::*;

use crate::framework::lex::coverage::{leaves_nothing_out, reads_on};
use crate::framework::lex::derive::with_bytes;
use crate::framework::lex::lexed::{
    bytes_of, lemma_rank_at, nameless, occurrence_views, rank_at, start_of, state_before,
    LexicalView, OccurrenceView,
};
use crate::framework::lex::mode::{stack_view, LexerState, StateView};
use crate::framework::lex::patch::{
    lined_up_between, named, nameless_all, partner, strangers, LocalPatch,
};
use crate::framework::lex::relex::{
    is_reading, is_window, occurrence_of, reading_of, relexed_by, state_at, window_tokens, Scanned,
    Scanner, Window,
};
use crate::framework::parse::delta::{lemma_common_prefix, lemma_shared_ends, shared_ends};
use crate::framework::source::SourceSplice;
use crate::text::rope_bytes;

verus! {

/// Two lexers have the same ahead of them: the same open states and the same rest
/// of the text.
pub open spec fn same_ahead(
    s: LexerState,
    a: ropey::Rope,
    t: LexerState,
    b: ropey::Rope,
) -> bool {
    &&& s.offset <= rope_bytes(a).len()
    &&& t.offset <= rope_bytes(b).len()
    &&& stack_view(s.state_stack@) == stack_view(t.state_stack@)
    &&& rope_bytes(a).skip(s.offset as int) == rope_bytes(b).skip(t.offset as int)
}

/// Two steps read the same, each from where its lexer stands.
pub open spec fn same_step<R>(
    s: LexerState,
    x: Scanned<R>,
    t: LexerState,
    y: Scanned<R>,
) -> bool {
    &&& occurrence_of(x) == occurrence_of(y)
    &&& x.after.offset - s.offset == y.after.offset - t.offset
}

/// A scanner reads on from a step as it did elsewhere.
pub open spec fn reads_alike<R, S: Scanner<R>>(
    scanner: S,
    s: LexerState,
    x: Scanned<R>,
    t: LexerState,
    b: ropey::Rope,
) -> bool {
    exists|y: Scanned<R>| #[trigger]
        scanner.reads(t, b, Ok(Some(y))) && same_step(s, x, t, y)
}

/// What a scanner reads depends on the open states and on the rest of the text,
/// and on nothing else.
#[verifier::opaque]
pub open spec fn reads_ahead_only<R, S: Scanner<R>>(scanner: S) -> bool {
    forall|s: LexerState, a: ropey::Rope, t: LexerState, b: ropey::Rope, x: Scanned<R>|
        #[trigger] scanner.reads(s, a, Ok(Some(x))) && #[trigger] same_ahead(s, a, t, b)
            ==> reads_alike(scanner, s, x, t, b)
}

/// Tokens are a reading of a text from where a lexer stands, identities aside.
#[verifier::opaque]
pub open spec fn reads_as<R, S: Scanner<R>>(
    scanner: S,
    from: LexerState,
    text: ropey::Rope,
    steps: Seq<Scanned<R>>,
    list: Seq<OccurrenceView<R>>,
) -> bool {
    &&& is_reading(scanner, from, text, steps)
    &&& steps.len() == list.len()
    &&& forall|i: int| 0 <= i < list.len() ==> occurrence_of(steps[i]) == nameless(#[trigger] list[i])
}

/// Tokens are a reading of a text from its start to its end.
pub open spec fn reads_through<R, S: Scanner<R>>(
    scanner: S,
    stack: Seq<StateView>,
    text: ropey::Rope,
    list: Seq<OccurrenceView<R>>,
    from: LexerState,
    steps: Seq<Scanned<R>>,
) -> bool {
    &&& from.offset == 0
    &&& stack_view(from.state_stack@) == stack
    &&& reads_as(scanner, from, text, steps, list)
    &&& state_at(from, steps, steps.len() as int).offset == rope_bytes(text).len()
}

/// A reading goes the same way where the same is ahead.
proof fn lemma_reading_moves<R, S: Scanner<R>>(
    scanner: S,
    s: LexerState,
    a: ropey::Rope,
    steps: Seq<Scanned<R>>,
    list: Seq<OccurrenceView<R>>,
    t: LexerState,
    b: ropey::Rope,
) -> (moved: Seq<Scanned<R>>)
    requires
        leaves_nothing_out(scanner),
        reads_ahead_only(scanner),
        reads_as(scanner, s, a, steps, list),
        same_ahead(s, a, t, b),
    ensures
        reads_as(scanner, t, b, moved, list),
        same_ahead(
            state_at(s, steps, steps.len() as int),
            a,
            state_at(t, moved, moved.len() as int),
            b,
        ),
        state_at(s, steps, steps.len() as int).offset - s.offset == state_at(
            t,
            moved,
            moved.len() as int,
        ).offset - t.offset,
    decreases steps.len(),
{
    reveal(reads_as);
    if steps.len() == 0 {
        steps
    } else {
        let rest = steps.drop_last();
        let front = list.drop_last();
        let last = steps.len() - 1;
        assert(reads_as(scanner, s, a, rest, front)) by {
            assert forall|i: int| 0 <= i < rest.len() implies scanner.reads(
                state_at(s, rest, i),
                a,
                Ok(Some(#[trigger] rest[i])),
            ) by {
                assert(rest[i] == steps[i]);
                assert(state_at(s, rest, i) == state_at(s, steps, i));
            }
            assert forall|i: int| 0 <= i < front.len() implies occurrence_of(rest[i])
                == nameless(#[trigger] front[i]) by {
                assert(front[i] == list[i]);
            }
        }
        let before = lemma_reading_moves(scanner, s, a, rest, front, t, b);
        let here = state_at(s, rest, rest.len() as int);
        let there = state_at(t, before, before.len() as int);
        assert(here == state_at(s, steps, last));
        let x = steps[last];
        assert(scanner.reads(here, a, Ok(Some(x))));
        assert(reads_alike(scanner, here, x, there, b)) by {
            reveal(reads_ahead_only);
        }
        let y = choose|y: Scanned<R>| #[trigger]
            scanner.reads(there, b, Ok(Some(y))) && same_step(here, x, there, y);
        assert(reads_on(here, a, x));
        assert(reads_on(there, b, y));
        let moved = before.push(y);
        assert forall|i: int| 0 <= i < moved.len() implies scanner.reads(
            state_at(t, moved, i),
            b,
            Ok(Some(#[trigger] moved[i])),
        ) by {
            if i < before.len() {
                assert(moved[i] == before[i]);
                assert(state_at(t, moved, i) == state_at(t, before, i));
            } else {
                assert(state_at(t, moved, i) == there);
            }
        }
        assert forall|i: int| 0 <= i < list.len() implies occurrence_of(moved[i]) == nameless(
            #[trigger] list[i],
        ) by {
            if i < before.len() {
                assert(front[i] == list[i]);
                assert(moved[i] == before[i]);
            }
        }
        assert(rope_bytes(a).skip(x.after.offset as int) =~= rope_bytes(b).skip(
            y.after.offset as int,
        )) by {
            let far = rope_bytes(a).skip(here.offset as int);
            let near = rope_bytes(b).skip(there.offset as int);
            let step = x.after.offset - here.offset;
            assert(rope_bytes(a).skip(x.after.offset as int) =~= far.skip(step));
            assert(rope_bytes(b).skip(y.after.offset as int) =~= near.skip(step));
        }
        assert(occurrence_of(x).state_after == occurrence_of(y).state_after);
        moved
    }
}

/// Two readings one behind the other are one.
proof fn lemma_readings_join<R, S: Scanner<R>>(
    scanner: S,
    from: LexerState,
    text: ropey::Rope,
    first: Seq<Scanned<R>>,
    one: Seq<OccurrenceView<R>>,
    second: Seq<Scanned<R>>,
    other: Seq<OccurrenceView<R>>,
)
    requires
        reads_as(scanner, from, text, first, one),
        reads_as(scanner, state_at(from, first, first.len() as int), text, second, other),
    ensures
        reads_as(scanner, from, text, first + second, one + other),
        state_at(from, first + second, (first + second).len() as int) == state_at(
            state_at(from, first, first.len() as int),
            second,
            second.len() as int,
        ),
{
    reveal(reads_as);
    let steps = first + second;
    let list = one + other;
    let mid = state_at(from, first, first.len() as int);
    assert forall|i: int| 0 <= i < steps.len() implies scanner.reads(
        state_at(from, steps, i),
        text,
        Ok(Some(#[trigger] steps[i])),
    ) by {
        if i < first.len() {
            assert(steps[i] == first[i]);
            assert(state_at(from, steps, i) == state_at(from, first, i));
        } else {
            assert(steps[i] == second[i - first.len()]);
            assert(state_at(from, steps, i) == state_at(mid, second, i - first.len()));
        }
    }
    assert forall|i: int| 0 <= i < list.len() implies occurrence_of(steps[i]) == nameless(
        #[trigger] list[i],
    ) by {
        if i < first.len() {
            assert(list[i] == one[i]);
        } else {
            assert(list[i] == other[i - first.len()]);
        }
    }
}

/// A reading that leaves nothing out ends as far on as its tokens are long, with
/// the open states of the last one.
proof fn lemma_reading_reaches<R, S: Scanner<R>>(
    scanner: S,
    from: LexerState,
    text: ropey::Rope,
    steps: Seq<Scanned<R>>,
    list: Seq<OccurrenceView<R>>,
)
    requires
        leaves_nothing_out(scanner),
        reads_as(scanner, from, text, steps, list),
    ensures
        state_at(from, steps, steps.len() as int).offset == from.offset + bytes_of(list),
        steps.len() > 0 ==> stack_view(
            state_at(from, steps, steps.len() as int).state_stack@,
        ) == list.last().state_after,
        steps.len() > 0 ==> state_at(from, steps, steps.len() as int).offset <= rope_bytes(
            text,
        ).len(),
    decreases steps.len(),
{
    reveal(reads_as);
    if steps.len() > 0 {
        let rest = steps.drop_last();
        let front = list.drop_last();
        let last = steps.len() - 1;
        assert(reads_as(scanner, from, text, rest, front)) by {
            assert forall|i: int| 0 <= i < rest.len() implies scanner.reads(
                state_at(from, rest, i),
                text,
                Ok(Some(#[trigger] rest[i])),
            ) by {
                assert(rest[i] == steps[i]);
                assert(state_at(from, rest, i) == state_at(from, steps, i));
            }
            assert forall|i: int| 0 <= i < front.len() implies occurrence_of(rest[i])
                == nameless(#[trigger] front[i]) by {
                assert(front[i] == list[i]);
            }
        }
        lemma_reading_reaches(scanner, from, text, rest, front);
        assert(state_at(from, rest, rest.len() as int) == state_at(from, steps, last));
        assert(scanner.reads(state_at(from, steps, last), text, Ok(Some(steps[last]))));
        assert(reads_on(state_at(from, steps, last), text, steps[last]));
        assert(occurrence_of(steps[last]) == nameless(list[last]));
    }
}

/// The tokens behind a place of a reading are a reading from there.
proof fn lemma_reading_tail<R, S: Scanner<R>>(
    scanner: S,
    from: LexerState,
    text: ropey::Rope,
    steps: Seq<Scanned<R>>,
    list: Seq<OccurrenceView<R>>,
    rank: int,
)
    requires
        reads_as(scanner, from, text, steps, list),
        0 <= rank <= steps.len(),
    ensures
        reads_as(scanner, from, text, steps.take(rank), list.take(rank)),
        reads_as(
            scanner,
            state_at(from, steps, rank),
            text,
            steps.skip(rank),
            list.skip(rank),
        ),
        state_at(from, steps.take(rank), rank) == state_at(from, steps, rank),
        state_at(state_at(from, steps, rank), steps.skip(rank), steps.len() - rank) == state_at(
            from,
            steps,
            steps.len() as int,
        ),
{
    reveal(reads_as);
    let head = steps.take(rank);
    let tail = steps.skip(rank);
    let mid = state_at(from, steps, rank);
    assert forall|i: int| 0 <= i < head.len() implies scanner.reads(
        state_at(from, head, i),
        text,
        Ok(Some(#[trigger] head[i])),
    ) by {
        assert(head[i] == steps[i]);
        assert(state_at(from, head, i) == state_at(from, steps, i));
    }
    assert forall|i: int| 0 <= i < tail.len() implies scanner.reads(
        state_at(mid, tail, i),
        text,
        Ok(Some(#[trigger] tail[i])),
    ) by {
        assert(tail[i] == steps[i + rank]);
        assert(state_at(mid, tail, i) == state_at(from, steps, i + rank));
    }
    assert forall|i: int| 0 <= i < head.len() implies occurrence_of(head[i]) == nameless(
        #[trigger] list.take(rank)[i],
    ) by {
        assert(list.take(rank)[i] == list[i]);
    }
    assert forall|i: int| 0 <= i < tail.len() implies occurrence_of(tail[i]) == nameless(
        #[trigger] list.skip(rank)[i],
    ) by {
        assert(list.skip(rank)[i] == list[i + rank]);
    }
}

/// Behind an edit the texts go on alike.
proof fn lemma_texts_go_on(
    old_bytes: Seq<u8>,
    bytes: Seq<u8>,
    start: int,
    end: int,
    inserted: Seq<u8>,
    at: int,
)
    requires
        0 <= start <= end <= at <= old_bytes.len(),
        bytes == with_bytes(old_bytes, start, end, inserted),
    ensures
        ({
            let there = at + (bytes.len() - old_bytes.len());
            &&& 0 <= there <= bytes.len()
            &&& old_bytes.skip(at) == bytes.skip(there)
        }),
{
    let there = at + (bytes.len() - old_bytes.len());
    let far = old_bytes.skip(at);
    let near = bytes.skip(there);
    assert(far.len() == near.len());
    assert forall|i: int| 0 <= i < far.len() implies #[trigger] far[i] == near[i] by {
        let rest = old_bytes.skip(end);
        assert(rest[at + i - end] == old_bytes[at + i]);
    }
    assert(far =~= near);
}

/// The old tokens from a place on are read in the new text too, from where the
/// same is ahead.
proof fn lemma_rest_is_read<R, S: Scanner<R>>(
    scanner: S,
    v: LexicalView<R>,
    old_text: ropey::Rope,
    text: ropey::Rope,
    old_from: LexerState,
    old_steps: Seq<Scanned<R>>,
    until: int,
    here: LexerState,
) -> (last: Seq<Scanned<R>>)
    requires
        leaves_nothing_out(scanner),
        reads_ahead_only(scanner),
        reads_through(scanner, v.initial_state, old_text, v.lexical, old_from, old_steps),
        0 <= until <= v.lexical.len(),
        stack_view(here.state_stack@) == state_before(v, until),
        here.offset <= rope_bytes(text).len(),
        start_of(v.lexical, until) <= rope_bytes(old_text).len(),
        rope_bytes(old_text).skip(start_of(v.lexical, until) as int) == rope_bytes(text).skip(
            here.offset as int,
        ),
    ensures
        reads_as(scanner, here, text, last, v.lexical.skip(until)),
        state_at(here, last, last.len() as int).offset == rope_bytes(text).len(),
{
    assert(old_steps.len() == v.lexical.len()) by {
        reveal(reads_as);
    }
    lemma_reading_tail(scanner, old_from, old_text, old_steps, v.lexical, until);
    let tail = old_steps.skip(until);
    let behind = v.lexical.skip(until);
    let there = state_at(old_from, old_steps, until);
    lemma_reading_reaches(
        scanner,
        old_from,
        old_text,
        old_steps.take(until),
        v.lexical.take(until),
    );
    assert(there.offset == bytes_of(v.lexical.take(until)));
    assert(start_of(v.lexical, until) == there.offset);
    if until > 0 {
        assert(v.lexical.take(until).last() == v.lexical[until - 1]);
    }
    assert(same_ahead(there, old_text, here, text));
    let last = lemma_reading_moves(scanner, there, old_text, tail, behind, here, text);
    let old_end = state_at(there, tail, tail.len() as int);
    assert(rope_bytes(old_text).skip(there.offset as int).len() == rope_bytes(text).skip(
        here.offset as int,
    ).len());
    assert(old_end.offset == rope_bytes(old_text).len());
    last
}

/// A window is a reading of the new text from before the edit on, in the states
/// that were open there. It stops at the end of the text, or at an old token
/// behind the edit, in the states that were open before that.
proof fn lemma_window_reads<R, S: Scanner<R>>(
    scanner: S,
    v: LexicalView<R>,
    splice: SourceSplice,
    text: ropey::Rope,
    window: Window<R>,
) -> (r: (LexerState, Seq<Scanned<R>>))
    requires
        leaves_nothing_out(scanner),
        is_window(scanner, v, splice, text, window),
    ensures
        reads_as(scanner, r.0, text, r.1, occurrence_views(window.tokens@)),
        ({
            let restart = rank_at(v.lexical, splice.old_range.start as int);
            &&& r.0.offset == start_of(v.lexical, restart)
            &&& stack_view(r.0.state_stack@) == state_before(v, restart)
        }),
        ({
            let end = state_at(r.0, r.1, r.1.len() as int);
            match window.convergence {
                None => end.offset >= rope_bytes(text).len(),
                Some(rank) => {
                    &&& start_of(v.lexical, rank as int) == end.offset - (rope_bytes(text).len()
                        - vstd::utf8::encode_utf8(v.source).len())
                    &&& start_of(v.lexical, rank as int) >= splice.old_range.end
                    &&& state_before(v, rank as int) == stack_view(end.state_stack@)
                },
            }
        }),
{
    let (start, again) = choose|start: LexerState, again: Seq<Scanned<R>>| #[trigger]
        reading_of(scanner, v, splice, text, start, again, window);
    let tokens = occurrence_views(window.tokens@);
    let end = state_at(start, again, again.len() as int);
    if again.len() > 0 {
        let last = again.len() - 1;
        assert(scanner.reads(state_at(start, again, last), text, Ok(Some(again[last]))));
        assert(reads_on(state_at(start, again, last), text, again[last]));
    }
    assert(tokens.len() == again.len());
    assert(reads_as(scanner, start, text, again, tokens)) by {
        reveal(reads_as);
        assert forall|i: int| 0 <= i < tokens.len() implies occurrence_of(again[i]) == nameless(
            #[trigger] tokens[i],
        ) by {
            assert(tokens[i] == occurrence_of(again[i]));
        }
    }
    if window.convergence is None {
        assert(scanner.reads(end, text, Ok(None)));
    }
    (start, again)
}

/// Identities do not change what was read.
proof fn lemma_named_reads<R, S: Scanner<R>>(
    scanner: S,
    from: LexerState,
    text: ropey::Rope,
    steps: Seq<Scanned<R>>,
    old: Seq<OccurrenceView<R>>,
    tokens: Seq<OccurrenceView<R>>,
    next: u64,
)
    requires
        reads_as(scanner, from, text, steps, tokens),
    ensures
        reads_as(scanner, from, text, steps, named(old, tokens, next)),
{
    reveal(reads_as);
    let now = named(old, tokens, next);
    assert forall|i: int| 0 <= i < now.len() implies occurrence_of(steps[i]) == nameless(
        #[trigger] now[i],
    ) by {
        assert(now[i] == OccurrenceView { id: now[i].id, ..tokens[i] });
        assert(occurrence_of(steps[i]) == nameless(tokens[i]));
    }
}

/// The window is a reading of the new text behind the tokens that are kept before
/// it.
proof fn lemma_window_goes_on<R, S: Scanner<R>>(
    scanner: S,
    v: LexicalView<R>,
    restart: int,
    text: ropey::Rope,
    start: LexerState,
    again: Seq<Scanned<R>>,
    now: Seq<OccurrenceView<R>>,
    from: LexerState,
    head: Seq<Scanned<R>>,
) -> (mid: Seq<Scanned<R>>)
    requires
        leaves_nothing_out(scanner),
        reads_ahead_only(scanner),
        reads_as(scanner, start, text, again, now),
        0 <= restart <= v.lexical.len(),
        start.offset == start_of(v.lexical, restart),
        start.offset <= rope_bytes(text).len(),
        stack_view(start.state_stack@) == state_before(v, restart),
        from.offset == 0,
        stack_view(from.state_stack@) == v.initial_state,
        head.len() == restart,
        reads_as(scanner, from, text, head, v.lexical.take(restart)),
    ensures
        ({
            let end = state_at(start, again, again.len() as int);
            let here = state_at(from, head + mid, (head + mid).len() as int);
            &&& reads_as(scanner, from, text, head + mid, v.lexical.take(restart) + now)
            &&& here.offset == end.offset
            &&& here.offset <= rope_bytes(text).len()
            &&& stack_view(here.state_stack@) == stack_view(end.state_stack@)
        }),
{
    let kept = v.lexical.take(restart);
    lemma_reading_reaches(scanner, from, text, head, kept);
    let joint = state_at(from, head, head.len() as int);
    assert(start_of(v.lexical, restart) == bytes_of(kept));
    if restart > 0 {
        assert(kept.last() == v.lexical[restart - 1]);
    }
    assert(same_ahead(start, text, joint, text));
    let mid = lemma_reading_moves(scanner, start, text, again, now, joint, text);
    lemma_readings_join(scanner, from, text, head, kept, mid, now);
    mid
}

/// The tokens before a window, those of the window and those behind it are one
/// reading of the new text.
proof fn lemma_parts_are_one_reading<R, S: Scanner<R>>(
    scanner: S,
    v: LexicalView<R>,
    splice: SourceSplice,
    inserted: Seq<u8>,
    old_text: ropey::Rope,
    text: ropey::Rope,
    restart: int,
    until: int,
    found: bool,
    start: LexerState,
    again: Seq<Scanned<R>>,
    now: Seq<OccurrenceView<R>>,
    old_from: LexerState,
    old_steps: Seq<Scanned<R>>,
    from: LexerState,
    head: Seq<Scanned<R>>,
) -> (steps: Seq<Scanned<R>>)
    requires
        leaves_nothing_out(scanner),
        reads_ahead_only(scanner),
        reads_through(scanner, v.initial_state, old_text, v.lexical, old_from, old_steps),
        splice.old_range.start <= splice.old_range.end <= rope_bytes(old_text).len(),
        rope_bytes(text) == with_bytes(
            rope_bytes(old_text),
            splice.old_range.start as int,
            splice.old_range.end as int,
            inserted,
        ),
        from.offset == 0,
        stack_view(from.state_stack@) == v.initial_state,
        reads_as(scanner, from, text, head, v.lexical.take(restart)),
        0 <= restart <= until <= v.lexical.len(),
        start_of(v.lexical, restart) <= splice.old_range.start,
        reads_as(scanner, start, text, again, now),
        start.offset == start_of(v.lexical, restart),
        stack_view(start.state_stack@) == state_before(v, restart),
        !found ==> until == v.lexical.len() && state_at(start, again, again.len() as int).offset
            >= rope_bytes(text).len(),
        found ==> {
            let end = state_at(start, again, again.len() as int);
            &&& start_of(v.lexical, until) == end.offset - (rope_bytes(text).len() - rope_bytes(
                old_text,
            ).len())
            &&& start_of(v.lexical, until) >= splice.old_range.end
            &&& state_before(v, until) == stack_view(end.state_stack@)
        },
    ensures
        reads_through(
            scanner,
            v.initial_state,
            text,
            v.lexical.take(restart) + now + v.lexical.skip(until),
            from,
            steps,
        ),
{
    let kept = v.lexical.take(restart);
    assert(head.len() == restart) by {
        reveal(reads_as);
    }
    let mid = lemma_window_goes_on(scanner, v, restart, text, start, again, now, from, head);
    let most = head + mid;
    let here = state_at(from, most, most.len() as int);
    if !found {
        assert(v.lexical.skip(until) =~= Seq::<OccurrenceView<R>>::empty());
        assert(kept + now + v.lexical.skip(until) =~= kept + now);
        most
    } else {
        lemma_texts_go_on(
            rope_bytes(old_text),
            rope_bytes(text),
            splice.old_range.start as int,
            splice.old_range.end as int,
            inserted,
            start_of(v.lexical, until) as int,
        );
        let last = lemma_rest_is_read(
            scanner,
            v,
            old_text,
            text,
            old_from,
            old_steps,
            until,
            here,
        );
        lemma_readings_join(scanner, from, text, most, kept + now, last, v.lexical.skip(until));
        most + last
    }
}

/// Reading again from before an edit on gives what reading the whole new text
/// gives. Given is a scanner that goes by what is ahead of it, tokens that were a
/// reading of the old text, and a new text in whose reading the tokens before the
/// edit come first; then the tokens after the edit are a reading of the new text,
/// from its start to its end, in the same open states.
pub proof fn lemma_read_again_as_afresh<R, S: Scanner<R>>(
    scanner: S,
    v: LexicalView<R>,
    w: LexicalView<R>,
    splice: SourceSplice,
    inserted: Seq<u8>,
    old_text: ropey::Rope,
    text: ropey::Rope,
    window: Window<R>,
    patch: LocalPatch,
    old_from: LexerState,
    old_steps: Seq<Scanned<R>>,
    from: LexerState,
    head: Seq<Scanned<R>>,
) -> (steps: Seq<Scanned<R>>)
    requires
        leaves_nothing_out(scanner),
        reads_ahead_only(scanner),
        rope_bytes(old_text) == vstd::utf8::encode_utf8(v.source),
        reads_through(scanner, v.initial_state, old_text, v.lexical, old_from, old_steps),
        splice.old_range.start <= splice.old_range.end <= rope_bytes(old_text).len(),
        rope_bytes(text) == with_bytes(
            rope_bytes(old_text),
            splice.old_range.start as int,
            splice.old_range.end as int,
            inserted,
        ),
        splice.new_range.end == splice.old_range.start + inserted.len(),
        from.offset == 0,
        stack_view(from.state_stack@) == v.initial_state,
        reads_as(
            scanner,
            from,
            text,
            head,
            v.lexical.take(rank_at(v.lexical, splice.old_range.start as int)),
        ),
        relexed_by(scanner, v, w, splice, text, window, patch),
    ensures
        reads_through(scanner, w.initial_state, text, w.lexical, from, steps),
{
    let restart = rank_at(v.lexical, splice.old_range.start as int);
    let until = match window.convergence {
        Some(rank) => rank as int,
        None => v.lexical.len() as int,
    };
    let tokens = occurrence_views(window.tokens@);
    let now = window_tokens(v, restart, until, tokens);
    lemma_rank_at(v.lexical, splice.old_range.start as int);
    let (start, again) = lemma_window_reads(scanner, v, splice, text, window);
    lemma_named_reads(
        scanner,
        start,
        text,
        again,
        v.lexical.subrange(restart, until),
        tokens,
        v.next_occurrence,
    );
    lemma_parts_are_one_reading(
        scanner,
        v,
        splice,
        inserted,
        old_text,
        text,
        restart,
        until,
        window.convergence is Some,
        start,
        again,
        now,
        old_from,
        old_steps,
        from,
        head,
    )
}

/// Tokens keep their identities from the start of a part that was read again up
/// to the first that differs.
pub proof fn lemma_same_tokens_keep_identities<R>(
    old: Seq<OccurrenceView<R>>,
    new: Seq<OccurrenceView<R>>,
    next: u64,
    i: int,
)
    requires
        0 <= i < old.len(),
        i < new.len(),
        forall|k: int| 0 <= k <= i ==> nameless(#[trigger] old[k]) == nameless(new[k]),
    ensures
        named(old, new, next)[i] == old[i],
{
    let a = nameless_all(old);
    let b = nameless_all(new);
    assert forall|k: int| 0 <= k < i + 1 implies a[k] == b[k] by {
        assert(nameless(old[k]) == nameless(new[k]));
    }
    lemma_common_prefix(a, b, (i + 1) as nat);
    assert(shared_ends(a, b).0 > i);
    assert(nameless(old[i]) == nameless(new[i]));
}

/// Where a part that was read again has as many tokens as before, of the same
/// kinds in the same order, all of them keep their identities, whatever text they
/// hold.
pub proof fn lemma_same_kinds_keep_identities<R>(
    old: Seq<OccurrenceView<R>>,
    new: Seq<OccurrenceView<R>>,
    next: u64,
    i: int,
)
    requires
        old.len() == new.len(),
        0 <= i < new.len(),
        forall|k: int|
            0 <= k < old.len() ==> {
                &&& (#[trigger] old[k]).terminal == new[k].terminal
                &&& old[k].skip == new[k].skip
                &&& (old[k].error is Some) == (new[k].error is Some)
            },
    ensures
        named(old, new, next)[i].id == old[i].id,
{
    let (prefix, suffix) = shared_ends(nameless_all(old), nameless_all(new));
    assert(lined_up_between(old, new, prefix as int, suffix as int));
}

/// A token that is read again where another kind of token was gets an identity
/// that was not handed out before.
pub proof fn lemma_other_tokens_get_new_identities<R>(
    old: Seq<OccurrenceView<R>>,
    new: Seq<OccurrenceView<R>>,
    next: u64,
)
    requires
        old.len() > 0,
        new.len() > 0,
        forall|i: int, k: int|
            0 <= i < new.len() && 0 <= k < old.len() ==> {
                ||| (#[trigger] old[k]).terminal != (#[trigger] new[i]).terminal
                ||| old[k].skip != new[i].skip
                ||| (old[k].error is Some) != (new[i].error is Some)
            },
        next + new.len() <= u64::MAX,
    ensures
        forall|i: int|
            0 <= i < new.len() ==> (#[trigger] named(old, new, next)[i]).id.0 == next + i,
{
    let a = nameless_all(old);
    let b = nameless_all(new);
    let (prefix, suffix) = shared_ends(a, b);
    lemma_shared_ends(a, b);
    if prefix > 0 {
        assert(a.take(prefix as int)[0] == b.take(prefix as int)[0]);
        assert(nameless(old[0]) == nameless(new[0]));
    }
    if suffix > 0 {
        let x = old.len() - 1;
        let y = new.len() - 1;
        assert(a.skip(a.len() - suffix)[suffix - 1] == b.skip(b.len() - suffix)[suffix - 1]);
        assert(nameless(old[x]) == nameless(new[y]));
    }
    assert(!lined_up_between(old, new, 0, 0)) by {
        if lined_up_between(old, new, 0, 0) {
            assert(old[0].terminal == new[0].terminal);
        }
    }
    assert forall|i: int| 0 <= i < new.len() implies (#[trigger] named(old, new, next)[i]).id.0
        == next + i by {
        lemma_all_new(old, new, i);
    }
}

proof fn lemma_all_new<R>(old: Seq<OccurrenceView<R>>, new: Seq<OccurrenceView<R>>, upto: int)
    requires
        0 <= upto <= new.len(),
        shared_ends(nameless_all(old), nameless_all(new)) == (0nat, 0nat),
        !lined_up_between(old, new, 0, 0),
    ensures
        strangers(old, new, upto) == upto,
    decreases upto,
{
    if upto > 0 {
        lemma_all_new(old, new, upto - 1);
        assert(partner(old, new, upto - 1) is None);
    }
}

} // verus!
