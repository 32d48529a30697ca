//! Bringing the tokens of a document up to date with its text.

use std::sync::Arc;

use vstd::prelude::*;
use vstd::utf8::*;

use crate::framework::lex::lexed::{
    parse_tokens, rank_at, start_of, LexicalDocument, LexicalView, SemanticRevisionId,
    StableDocumentId, TokenPatch,
};
use crate::framework::lex::mode::State;
use crate::framework::lex::patch::{
    gathered, is_patch, keys_in_order, GatheredView, LocalPatch, PatchBuilder,
};
use crate::framework::lex::relex::{
    copy_tokens, read_again, relex_fails, relex_splice, Scanner,
};
use crate::framework::lex::token::{
    IncrementalLexStats, LexFault, LexInterrupt, LexerRoot, LexerWork,
};
use crate::framework::parse::delta::part_of;
use crate::framework::source::{SourceDelta, SourceSplice};
use crate::text::{
    is_rope_char_boundary, rope_byte_slice, rope_bytes, rope_chars, rope_clone, rope_eq,
    rope_len_bytes, rope_replace,
};

verus! {

/// A splice fits two texts, behind the places up to which they were covered.
pub open spec fn splice_fits(
    old_bytes: Seq<u8>,
    new_bytes: Seq<u8>,
    splice: SourceSplice,
    old_from: int,
    new_from: int,
) -> bool {
    &&& old_from <= splice.old_range.start <= splice.old_range.end <= old_bytes.len()
    &&& new_from <= splice.new_range.start <= splice.new_range.end <= new_bytes.len()
    &&& is_char_boundary(old_bytes, splice.old_range.start as int)
    &&& is_char_boundary(old_bytes, splice.old_range.end as int)
    &&& is_char_boundary(new_bytes, splice.new_range.start as int)
    &&& is_char_boundary(new_bytes, splice.new_range.end as int)
}

/// The splice at a place fits behind the one before it.
pub open spec fn fits_at(
    old_bytes: Seq<u8>,
    new_bytes: Seq<u8>,
    splices: Seq<SourceSplice>,
    i: int,
) -> bool {
    splice_fits(
        old_bytes,
        new_bytes,
        splices[i],
        if i > 0 {
            splices[i - 1].old_range.end as int
        } else {
            0
        },
        if i > 0 {
            splices[i - 1].new_range.end as int
        } else {
            0
        },
    )
}

/// Splices fit two texts: they are in order, within the texts, and on
/// boundaries of characters.
pub open spec fn delta_fits(old_bytes: Seq<u8>, new_bytes: Seq<u8>, splices: Seq<SourceSplice>) -> bool {
    forall|i: int| 0 <= i < splices.len() ==> #[trigger] fits_at(old_bytes, new_bytes, splices, i)
}

/// Whether splices fit two texts.
pub fn validate_source_delta(
    previous: &ropey::Rope,
    next: &ropey::Rope,
    splices: &Vec<SourceSplice>,
) -> (r: Result<(), LexFault>)
    ensures
        r is Ok <==> delta_fits(rope_bytes(*previous), rope_bytes(*next), splices@),
        r is Err ==> r->Err_0 == LexFault::DeltaMismatch,
{
    let ghost a = rope_bytes(*previous);
    let ghost b = rope_bytes(*next);
    let mut old_cursor: usize = 0;
    let mut new_cursor: usize = 0;
    let mut at: usize = 0;
    while at < splices.len()
        invariant
            at <= splices@.len(),
            a == rope_bytes(*previous),
            b == rope_bytes(*next),
            old_cursor == if at > 0 {
                splices@[at - 1].old_range.end as int
            } else {
                0
            },
            new_cursor == if at > 0 {
                splices@[at - 1].new_range.end as int
            } else {
                0
            },
            forall|i: int| 0 <= i < at ==> #[trigger] fits_at(a, b, splices@, i),
        decreases splices@.len() - at,
    {
        let old_start: usize = splices[at].old_range.start;
        let old_end: usize = splices[at].old_range.end;
        let new_start: usize = splices[at].new_range.start;
        let new_end: usize = splices[at].new_range.end;
        let fits = old_start >= old_cursor && new_start >= new_cursor && old_start <= old_end
            && new_start <= new_end && old_end <= rope_len_bytes(previous) && new_end
            <= rope_len_bytes(next) && is_rope_char_boundary(previous, old_start)
            && is_rope_char_boundary(previous, old_end) && is_rope_char_boundary(next, new_start)
            && is_rope_char_boundary(next, new_end);
        assert(fits == fits_at(a, b, splices@, at as int));
        if !fits {
            return Err(LexFault::DeltaMismatch);
        }
        old_cursor = old_end;
        new_cursor = new_end;
        at += 1;
    }
    Ok(())
}

/// A text with a part replaced.
pub open spec fn with_bytes(bytes: Seq<u8>, start: int, end: int, text: Seq<u8>) -> Seq<u8> {
    bytes.take(start) + text + bytes.skip(end)
}

/// Replaces a part of a text that earlier splices led to.
pub fn apply_evolving_splice(
    snapshot: &mut ropey::Rope,
    start: usize,
    end: usize,
    inserted: &str,
) -> (r: Result<(), LexFault>)
    requires
        start <= end,
    ensures
        ({
            let bytes = rope_bytes(*old(snapshot));
            let fits = end <= bytes.len() && is_char_boundary(bytes, start as int)
                && is_char_boundary(bytes, end as int);
            &&& r is Ok <==> fits
            &&& r is Ok ==> rope_bytes(*final(snapshot)) == with_bytes(
                bytes,
                start as int,
                end as int,
                encode_utf8(inserted@),
            )
            &&& r is Err ==> r->Err_0 == LexFault::SnapshotMismatch && *final(snapshot) == *old(
                snapshot,
            )
        }),
{
    if end > rope_len_bytes(snapshot) || !is_rope_char_boundary(snapshot, start)
        || !is_rope_char_boundary(snapshot, end) {
        return Err(LexFault::SnapshotMismatch);
    }
    rope_replace(snapshot, start, end, inserted);
    Ok(())
}

/// A place moved by what was inserted and removed before it.
pub fn translate_offset(offset: usize, added: usize, removed: usize) -> (r: Result<usize, LexFault>)
    ensures
        match r {
            Ok(at) => at == offset + added - removed,
            Err(fault) => fault == LexFault::TranslationOverflow && !(0 <= offset + added - removed
                <= usize::MAX),
        },
{
    if added >= removed {
        let more: usize = added - removed;
        if offset > usize::MAX - more {
            Err(LexFault::TranslationOverflow)
        } else {
            Ok(offset + more)
        }
    } else {
        let fewer: usize = removed - added;
        if offset < fewer {
            Err(LexFault::TranslationOverflow)
        } else {
            Ok(offset - fewer)
        }
    }
}

impl<R: LexerRoot> LexicalDocument<R> {
    /// A copy that shares values and states.
    pub fn copied(&self) -> (r: Self)
        requires
            self.wf(),
        ensures
            r.wf(),
            r@ == self@,
    {
        let r = LexicalDocument {
            document: self.document,
            source: rope_clone(&self.source),
            lexical: copy_tokens(&self.lexical),
            layout: part_of(&self.layout, 0, self.layout.len()),
            semantic: part_of(&self.semantic, 0, self.semantic.len()),
            initial_state: Arc::clone(&self.initial_state),
            next_occurrence: self.next_occurrence,
            layout_revision: self.layout_revision,
            semantic_revision: self.semantic_revision,
            value_revision: self.value_revision,
            structure_revision: self.structure_revision,
        };
        proof {
            assert(self.layout@.subrange(0, self.layout@.len() as int) =~= self.layout@);
            assert(self.semantic@.subrange(0, self.semantic@.len() as int) =~= self.semantic@);
            assert(r@ =~= self@);
        }
        r
    }
}

// ---------------------------------------------------------------------------
// A command

/// How much the splices before one inserted.
pub open spec fn added_before(splices: Seq<SourceSplice>, i: int) -> int
    decreases i,
{
    if i <= 0 {
        0
    } else {
        added_before(splices, i - 1) + splices[i - 1].new_range.end - splices[i
            - 1].new_range.start
    }
}

/// How much the splices before one removed.
pub open spec fn removed_before(splices: Seq<SourceSplice>, i: int) -> int
    decreases i,
{
    if i <= 0 {
        0
    } else {
        removed_before(splices, i - 1) + splices[i - 1].old_range.end - splices[i
            - 1].old_range.start
    }
}

/// Where a splice is in the text that the splices before it led to.
pub open spec fn evolving(splices: Seq<SourceSplice>, i: int) -> SourceSplice {
    let shift = added_before(splices, i) - removed_before(splices, i);
    let start = (splices[i].old_range.start + shift) as usize;
    let end = (splices[i].old_range.end + shift) as usize;
    let width = splices[i].new_range.end - splices[i].new_range.start;
    SourceSplice {
        old_range: std::ops::Range { start, end },
        new_range: std::ops::Range { start, end: (start + width) as usize },
    }
}

/// One stage of a command: the tokens after some splices.
pub ghost struct Stage<R> {
    pub tokens: LexicalView<R>,
    pub gathered: GatheredView,
    pub relexed: usize,
    pub reused: usize,
    /// What was counted of each splice.
    pub work: Seq<LexerWork>,
}

/// A number that does not run over.
pub open spec fn sum_capped(a: usize, b: usize) -> usize {
    if a + b > usize::MAX {
        usize::MAX
    } else {
        (a + b) as usize
    }
}

/// One splice led from one stage to the next: its text took the place of the
/// old one, and the tokens were read again.
pub open spec fn stage_leads<R, S: Scanner<R>>(
    scanner: S,
    from: Stage<R>,
    to: Stage<R>,
    splice: SourceSplice,
    inserted: Seq<u8>,
    text: ropey::Rope,
    patch: LocalPatch,
) -> bool {
    &&& splice.old_range.start <= splice.old_range.end <= encode_utf8(from.tokens.source).len()
    &&& rope_bytes(text) == with_bytes(
        encode_utf8(from.tokens.source),
        splice.old_range.start as int,
        splice.old_range.end as int,
        inserted,
    )
    &&& read_again(scanner, from.tokens, to.tokens, splice, text, patch)
    &&& to.gathered == gathered(from.gathered, patch)
    &&& to.relexed == sum_capped(from.relexed, patch.replayed)
    &&& to.reused == sum_capped(from.reused, patch.reused)
    &&& to.work == from.work.push(patch.work)
}

/// What a splice puts in of the new text.
pub open spec fn put_in(new_bytes: Seq<u8>, splices: Seq<SourceSplice>, i: int) -> Seq<u8> {
    new_bytes.subrange(splices[i].new_range.start as int, splices[i].new_range.end as int)
}

/// One splice led from a stage to the next.
pub open spec fn stage_follows<R, S: Scanner<R>>(
    scanner: S,
    stages: Seq<Stage<R>>,
    new_bytes: Seq<u8>,
    splices: Seq<SourceSplice>,
    i: int,
) -> bool {
    exists|text: ropey::Rope, patch: LocalPatch| #[trigger]
        stage_leads(
            scanner,
            stages[i],
            stages[i + 1],
            evolving(splices, i),
            put_in(new_bytes, splices, i),
            text,
            patch,
        )
}

/// Splices led from one stage to the next, one after the other.
pub open spec fn stages_follow<R, S: Scanner<R>>(
    scanner: S,
    stages: Seq<Stage<R>>,
    new_bytes: Seq<u8>,
    splices: Seq<SourceSplice>,
    upto: int,
) -> bool {
    &&& stages.len() == upto + 1
    &&& forall|i: int|
        0 <= i < upto ==> #[trigger] stage_follows(scanner, stages, new_bytes, splices, i)
}

/// Why a command stops at a splice, given the tokens that the splices before
/// it led to: the splice does not fit the text there, or the tokens could not
/// be read again.
pub open spec fn splice_fails<R, S: Scanner<R>>(
    scanner: S,
    v: LexicalView<R>,
    new_bytes: Seq<u8>,
    splices: Seq<SourceSplice>,
    i: int,
    error: LexInterrupt,
) -> bool {
    let bytes = encode_utf8(v.source);
    let shift = added_before(splices, i) - removed_before(splices, i);
    let start = splices[i].old_range.start + shift;
    let end = splices[i].old_range.end + shift;
    let width = splices[i].new_range.end - splices[i].new_range.start;
    if !(0 <= start <= usize::MAX && 0 <= end <= usize::MAX) {
        error == LexInterrupt::InternalError(LexFault::TranslationOverflow)
    } else if start + width > usize::MAX {
        error == LexInterrupt::InternalError(LexFault::InsertionOverflow)
    } else if !(end <= bytes.len() && is_char_boundary(bytes, start) && is_char_boundary(
        bytes,
        end,
    )) {
        error == LexInterrupt::InternalError(LexFault::SnapshotMismatch)
    } else {
        exists|text: ropey::Rope|
            rope_bytes(text) == with_bytes(bytes, start, end, put_in(new_bytes, splices, i))
                && #[trigger] relex_fails(scanner, v, evolving(splices, i), text, error)
    }
}

/// Why a command stops once all splices were taken: they did not lead to the
/// text, or no revision is left.
pub open spec fn ending_fails<R>(v: LexicalView<R>, source: Seq<char>, error: LexInterrupt) -> bool {
    if v.source != source {
        error == LexInterrupt::InternalError(LexFault::WrongText)
    } else {
        error == LexInterrupt::InternalError(LexFault::RevisionsExhausted)
            && v.semantic_revision.0 == u64::MAX
    }
}

/// Why a command stops.
pub open spec fn derive_fails<R, S: Scanner<R>>(
    scanner: S,
    v: LexicalView<R>,
    splices: Seq<SourceSplice>,
    source: Seq<char>,
    error: LexInterrupt,
) -> bool {
    exists|stages: Seq<Stage<R>>, i: int|
        {
            &&& 0 <= i <= splices.len()
            &&& #[trigger] stages_follow(scanner, stages, encode_utf8(source), splices, i)
            &&& stages[0] == first_stage(v)
            &&& if i < splices.len() {
                splice_fails(scanner, stages.last().tokens, encode_utf8(source), splices, i, error)
            } else {
                ending_fails(stages.last().tokens, source, error)
            }
        }
}

/// The first stage of a command.
pub open spec fn first_stage<R>(v: LexicalView<R>) -> Stage<R> {
    Stage {
        tokens: v,
        gathered: GatheredView {
            old_structure: v.structure_revision,
            splices: Seq::empty(),
            inserted: Set::empty(),
            updated: Set::empty(),
            removed: Set::empty(),
        },
        relexed: 0,
        reused: 0,
        work: Seq::empty(),
    }
}

/// The tokens of a document after a command.
pub struct LexDocument<R> {
    pub document: LexicalDocument<R>,
    pub patch: TokenPatch,
    pub stats: Option<IncrementalLexStats>,
    /// What is counted of the work on each splice of the command.
    pub work: Vec<LexerWork>,
}

/// The splices of a command: a load, and the first command of a document,
/// replace all of the text.
pub open spec fn command_splices(
    initializing: bool,
    old_len: int,
    new_len: int,
    delta: SourceDelta,
) -> Seq<SourceSplice> {
    let replacement = SourceSplice {
        old_range: std::ops::Range { start: 0, end: old_len as usize },
        new_range: std::ops::Range { start: 0, end: new_len as usize },
    };
    if initializing {
        seq![replacement]
    } else {
        match delta {
            SourceDelta::Load { .. } => seq![replacement],
            SourceDelta::Edit { splices } => splices@,
        }
    }
}

/// What a command led to.
pub open spec fn derived<R, S: Scanner<R>>(
    scanner: S,
    v: LexicalView<R>,
    splices: Seq<SourceSplice>,
    source: Seq<char>,
    result: LexDocument<R>,
) -> bool {
    exists|stages: Seq<Stage<R>>|
        {
            let last = stages.last();
            &&& #[trigger] stages_follow(
                scanner,
                stages,
                encode_utf8(source),
                splices,
                splices.len() as int,
            )
            &&& last.tokens.source == source
            &&& stages[0] == first_stage(v)
            &&& is_patch(last.gathered, last.tokens.structure_revision, result.patch)
            &&& result.work@ == last.work
            &&& result.document@ == LexicalView {
                semantic_revision: if result.patch.keeps_structure() {
                    last.tokens.semantic_revision
                } else {
                    SemanticRevisionId((last.tokens.semantic_revision.0 + 1) as u64)
                },
                source,
                ..last.tokens
            }
            &&& result.stats == Some(
                IncrementalLexStats {
                    restart_byte: if splices.len() > 0 {
                        start_of(
                            v.lexical,
                            rank_at(v.lexical, evolving(splices, 0).old_range.start as int),
                        ) as usize
                    } else {
                        0
                    },
                    restart_occurrence: if splices.len() > 0 {
                        rank_at(v.lexical, evolving(splices, 0).old_range.start as int) as usize
                    } else {
                        0
                    },
                    relexed: last.relexed,
                    reused: last.reused,
                    old_tokens: parse_tokens(v.lexical).len() as usize,
                    new_tokens: parse_tokens(last.tokens.lexical).len() as usize,
                },
            )
        }
}

fn copy_splices(list: &Vec<SourceSplice>) -> (r: Vec<SourceSplice>)
    ensures
        r@ == list@,
{
    let mut out: Vec<SourceSplice> = Vec::new();
    let mut at: usize = 0;
    while at < list.len()
        invariant
            at <= list@.len(),
            out@ == list@.take(at as int),
        decreases list@.len() - at,
    {
        out.push(list[at].clone());
        at += 1;
        assert(out@ =~= list@.take(at as int));
    }
    assert(out@ =~= list@);
    out
}

fn splices_of(initializing: bool, old_len: usize, new_len: usize, delta: &SourceDelta) -> (r: Vec<
    SourceSplice,
>)
    ensures
        r@ == command_splices(initializing, old_len as int, new_len as int, *delta),
{
    let replacement = SourceSplice { old_range: 0..old_len, new_range: 0..new_len };
    let mut all: Vec<SourceSplice> = Vec::new();
    match delta {
        SourceDelta::Edit { splices } if !initializing => {
            return copy_splices(splices);
        },
        _ => {
            all.push(replacement);
        },
    }
    assert(all@ =~= command_splices(initializing, old_len as int, new_len as int, *delta));
    all
}

proof fn lemma_totals(old_bytes: Seq<u8>, new_bytes: Seq<u8>, splices: Seq<SourceSplice>, i: int)
    requires
        delta_fits(old_bytes, new_bytes, splices),
        0 <= i <= splices.len(),
    ensures
        0 <= added_before(splices, i) <= if i > 0 {
            splices[i - 1].new_range.end as int
        } else {
            0
        },
        0 <= removed_before(splices, i) <= if i > 0 {
            splices[i - 1].old_range.end as int
        } else {
            0
        },
    decreases i,
{
    if i > 0 {
        lemma_totals(old_bytes, new_bytes, splices, i - 1);
        assert(fits_at(old_bytes, new_bytes, splices, i - 1));
    }
}

proof fn lemma_stage_pushed<R, S: Scanner<R>>(
    scanner: S,
    stages: Seq<Stage<R>>,
    new_bytes: Seq<u8>,
    splices: Seq<SourceSplice>,
    upto: int,
    to: Stage<R>,
    text: ropey::Rope,
    patch: LocalPatch,
)
    requires
        0 <= upto,
        stages_follow(scanner, stages, new_bytes, splices, upto),
        stage_leads(
            scanner,
            stages.last(),
            to,
            evolving(splices, upto),
            put_in(new_bytes, splices, upto),
            text,
            patch,
        ),
    ensures
        stages_follow(scanner, stages.push(to), new_bytes, splices, upto + 1),
        stages.push(to)[0] == stages[0],
        stages.push(to).last() == to,
{
    let more = stages.push(to);
    assert forall|i: int| 0 <= i < upto + 1 implies #[trigger] stage_follows(
        scanner,
        more,
        new_bytes,
        splices,
        i,
    ) by {
        if i < upto {
            assert(stage_follows(scanner, stages, new_bytes, splices, i));
            assert(more[i] == stages[i]);
            assert(more[i + 1] == stages[i + 1]);
        } else {
            assert(stage_leads(
                scanner,
                more[i],
                more[i + 1],
                evolving(splices, i),
                put_in(new_bytes, splices, i),
                text,
                patch,
            ));
        }
    }
}

/// What a command makes of the tokens of a document.
pub open spec fn derivation<R: LexerRoot, S: Scanner<R>>(
    scanner: S,
    v: LexicalView<R>,
    initializing: bool,
    source: ropey::Rope,
    delta: SourceDelta,
    r: Result<LexDocument<R>, LexInterrupt>,
) -> bool {
    let splices = command_splices(
        initializing,
        encode_utf8(v.source).len() as int,
        rope_bytes(source).len() as int,
        delta,
    );
    if v.source == rope_chars(source) {
        &&& r matches Ok(result)
        &&& result.document@ == v
        &&& result.patch.keeps_structure()
        &&& result.patch.updated@.len() == 0
        &&& result.patch.new_structure == v.structure_revision
        &&& result.stats is None
        &&& result.work@.len() == 0
    } else if !delta_fits(encode_utf8(v.source), rope_bytes(source), splices) {
        r matches Err(LexInterrupt::InternalError(LexFault::DeltaMismatch))
    } else {
        match r {
            Ok(result) => derived(scanner, v, splices, rope_chars(source), result),
            Err(error) => derive_fails(scanner, v, splices, rope_chars(source), error),
        }
    }
}

/// Brings the tokens of a document up to date with its text. Splices are taken
/// one after the other, each over what the ones before it led to.
#[verifier::rlimit(60)]
pub fn derive_document<R: LexerRoot, S: Scanner<R>>(
    scanner: &S,
    previous: Option<&LexicalDocument<R>>,
    document: StableDocumentId,
    root: State,
    source: &ropey::Rope,
    delta: &SourceDelta,
) -> (r: Result<LexDocument<R>, LexInterrupt>)
    requires
        previous is Some ==> previous->Some_0.wf(),
    ensures
        derivation(
            *scanner,
            base_view(previous, document, root),
            previous is None,
            *source,
            *delta,
            r,
        ),
        r is Ok ==> r->Ok_0.document.wf() && keys_in_order(r->Ok_0.patch),
{
    let initializing = previous.is_none();
    let mut doc = match previous {
        Some(before) => before.copied(),
        None => LexicalDocument::empty(document, root),
    };
    let ghost v = doc@;
    proof {
        assert(v =~= base_view(previous, document, root));
    }
    if rope_eq(&doc.source, source) {
        let patch = TokenPatch::unchanged(doc.structure_revision);
        return Ok(LexDocument { document: doc, patch, stats: None, work: Vec::new() });
    }
    let old_len: usize = rope_len_bytes(&doc.source);
    let new_len: usize = rope_len_bytes(source);
    let splices = splices_of(initializing, old_len, new_len, delta);
    match validate_source_delta(&doc.source, source, &splices) {
        Ok(_) => {},
        Err(fault) => {
            return Err(LexInterrupt::InternalError(fault));
        },
    }
    let ghost a = rope_bytes(doc.source);
    let ghost b = rope_bytes(*source);
    let mut snapshot = rope_clone(&doc.source);
    let mut patches = PatchBuilder::new(doc.structure_revision);
    let mut relexed: usize = 0;
    let mut reused: usize = 0;
    let mut work: Vec<LexerWork> = Vec::new();
    let mut restart_byte: usize = 0;
    let mut restart_occurrence: usize = 0;
    let old_tokens: usize = doc.semantic.len();
    let mut added: usize = 0;
    let mut removed: usize = 0;
    let ghost mut stages: Seq<Stage<R>> = seq![first_stage(v)];
    let mut at: usize = 0;
    while at < splices.len()
        invariant
            at <= splices@.len(),
            doc.wf(),
            v == base_view(previous, document, root),
            v.source != rope_chars(*source),
            splices@ == command_splices(
                previous is None,
                encode_utf8(v.source).len() as int,
                b.len() as int,
                *delta,
            ),
            a == encode_utf8(v.source),
            b == rope_bytes(*source),
            delta_fits(a, b, splices@),
            added == added_before(splices@, at as int),
            removed == removed_before(splices@, at as int),
            stages_follow(*scanner, stages, b, splices@, at as int),
            rope_chars(snapshot) == doc@.source,
            stages[0] == first_stage(v),
            stages.last().tokens == doc@,
            stages.last().gathered == patches@,
            stages.last().relexed == relexed,
            stages.last().reused == reused,
            stages.last().work == work@,
            at == 0 ==> doc@ == v,
            at > 0 ==> restart_occurrence == rank_at(
                v.lexical,
                evolving(splices@, 0).old_range.start as int,
            ),
            at > 0 ==> restart_byte == start_of(v.lexical, restart_occurrence as int),
            at == 0 ==> restart_occurrence == 0 && restart_byte == 0,
        decreases splices@.len() - at,
    {
        let ghost from = stages.last();
        proof {
            lemma_totals(a, b, splices@, at as int);
            lemma_totals(a, b, splices@, at as int + 1);
            assert(fits_at(a, b, splices@, at as int));
        }
        let old_start: usize = splices[at].old_range.start;
        let old_end: usize = splices[at].old_range.end;
        let new_start: usize = splices[at].new_range.start;
        let new_end: usize = splices[at].new_range.end;
        let start: usize = match translate_offset(old_start, added, removed) {
            Ok(start) => start,
            Err(fault) => {
                assert(stages_follow(*scanner, stages, b, splices@, at as int));
                return Err(LexInterrupt::InternalError(fault));
            },
        };
        let end: usize = match translate_offset(old_end, added, removed) {
            Ok(end) => end,
            Err(fault) => {
                assert(stages_follow(*scanner, stages, b, splices@, at as int));
                return Err(LexInterrupt::InternalError(fault));
            },
        };
        let inserted = rope_byte_slice(source, new_start, new_end);
        let width: usize = new_end - new_start;
        if start > usize::MAX - width {
            assert(stages_follow(*scanner, stages, b, splices@, at as int));
            return Err(LexInterrupt::InternalError(LexFault::InsertionOverflow));
        }
        let splice = SourceSplice { old_range: start..end, new_range: start..start + width };
        assert(splice == evolving(splices@, at as int));
        let rank: usize = doc.lexical_rank_at_byte(start);
        if at == 0 {
            restart_occurrence = rank;
            restart_byte = doc.lexical_start(rank);
        }
        match apply_evolving_splice(&mut snapshot, start, end, inserted.as_str()) {
            Ok(_) => {},
            Err(fault) => {
                assert(stages_follow(*scanner, stages, b, splices@, at as int));
                return Err(LexInterrupt::InternalError(fault));
            },
        }
        let text = rope_clone(&snapshot);
        let patch = match relex_splice(scanner, &mut doc, text, &splice) {
            Ok(patch) => patch,
            Err(error) => {
                proof {
                    assert(put_in(b, splices@, at as int) =~= encode_utf8(inserted@));
                    assert(relex_fails(*scanner, from.tokens, splice, text, error));
                    assert(splice_fails(*scanner, from.tokens, b, splices@, at as int, error));
                    assert(stages_follow(*scanner, stages, b, splices@, at as int));
                }
                return Err(error);
            },
        };
        relexed = relexed.saturating_add(patch.replayed);
        reused = reused.saturating_add(patch.reused);
        patches.absorb(&patch);
        work.push(patch.work);
        proof {
            let to = Stage { tokens: doc@, gathered: patches@, relexed, reused, work: work@ };
            assert(put_in(b, splices@, at as int) =~= encode_utf8(inserted@));
            assert(stage_leads(
                *scanner,
                from,
                to,
                splice,
                put_in(b, splices@, at as int),
                text,
                patch,
            ));
            lemma_stage_pushed(*scanner, stages, b, splices@, at as int, to, text, patch);
            stages = stages.push(to);
        }
        added = added + width;
        removed = removed + (old_end - old_start);
        at += 1;
    }
    if !rope_eq(&snapshot, source) {
        assert(stages_follow(*scanner, stages, b, splices@, splices@.len() as int));
        return Err(LexInterrupt::InternalError(LexFault::WrongText));
    }
    let patch = patches.freeze(doc.structure_revision);
    if !patch.structure_unchanged() {
        if doc.semantic_revision.0 == u64::MAX {
            assert(stages_follow(*scanner, stages, b, splices@, splices@.len() as int));
            return Err(LexInterrupt::InternalError(LexFault::RevisionsExhausted));
        }
        doc.semantic_revision = SemanticRevisionId(doc.semantic_revision.0 + 1);
    }
    doc.source = snapshot;
    let stats = IncrementalLexStats {
        restart_byte,
        restart_occurrence,
        relexed,
        reused,
        old_tokens,
        new_tokens: doc.semantic.len(),
    };
    let result = LexDocument { document: doc, patch, stats: Some(stats), work };
    assert(stages_follow(*scanner, stages, b, splices@, splices@.len() as int));
    assert(derived(*scanner, v, splices@, rope_chars(*source), result));
    Ok(result)
}

/// The tokens that a command starts from.
pub open spec fn base_view<R>(
    previous: Option<&LexicalDocument<R>>,
    document: StableDocumentId,
    root: State,
) -> LexicalView<R> {
    match previous {
        Some(before) => before@,
        None => blank(document, root),
    }
}

/// A document without tokens.
pub open spec fn blank<R>(document: StableDocumentId, root: State) -> LexicalView<R> {
    LexicalView {
        document,
        source: Seq::empty(),
        lexical: Seq::empty(),
        initial_state: seq![root@],
        next_occurrence: 0,
        layout_revision: crate::framework::lex::lexed::LayoutRevisionId(0),
        semantic_revision: SemanticRevisionId(0),
        value_revision: crate::framework::lex::lexed::TokenValueRevisionId(0),
        structure_revision: crate::framework::lex::lexed::TokenStructureRevisionId(0),
    }
}

} // verus!
