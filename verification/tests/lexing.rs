//! Source revisions, text cursors, lexer modes, and lexing after edits.

use std::sync::Arc;

use plingo::framework::lex::component::{
    lex_document, lexer_run_work, observe_token, LexStep, TokenVec,
};
use plingo::framework::lex::context::{LexMoment, Slot, SlotStore, WhenCx, WithCx};
use plingo::framework::lex::cursor::RopeCursor;
use plingo::framework::lex::derive::{
    apply_evolving_splice, derive_document, translate_offset, validate_source_delta, LexDocument,
};
use plingo::framework::lex::lexed::{
    document_id, LexicalDocument, StableDocumentId, TokenFactId, TokenFactKey, TokenOccurrenceId,
    TokenPatch,
    TokenStructureRevisionId,
};
use plingo::framework::lex::lexer::Lexer;
use plingo::framework::lex::mode::{CanonicalLexerState, LexerState, LexerStateInterner, State};
use plingo::framework::lex::publish::{
    patch_token_facts, publish_token_facts, republish_token_facts, retract_token_facts,
};
use plingo::framework::lex::relex::{Scanned, Scanner};
use plingo::framework::lex::token::{
    FromLexeme, LexErrorKind, LexFault, LexInterrupt, LexerWork, ScannedToken, UnsupportedDefaultParseError,
};
use plingo::framework::parse::data::ast::AstToken;
use plingo::framework::parse::tokens::ParserTokenDocument;
use plingo::framework::revision::{
    fnv1a_uri, fold_command, record_fold_work, source_document, CommandIds, DocumentId,
    SourceCommand, SourceCommandId, SourceRevision, SourceRevisionId, SourceSnapshot, SourceStep,
};
use plingo::framework::source::{SourceDelta, SourceError, SourceSplice, SourceWork};
use plingo::text::{is_rope_char_boundary, rope_byte_slice, rope_replace};
use plingo::utils::{fnv64, fnv64_from, ByteRange, Span};

fn load(text: &str, id: u64) -> SourceCommand {
    SourceCommand {
        id: SourceCommandId(id),
        fresh_document_id: None,
        base: None,
        delta: SourceDelta::Load { new_len: text.len() },
        next_text: ropey::Rope::from_str(text),
    }
}

fn first(text: &str) -> SourceRevision {
    fold_command(&"file:///a".to_string(), &load(text, 1), None).ok().unwrap()
}

#[test]
fn a_first_command_makes_the_first_revision() {
    let revision = first("hello");
    assert_eq!(revision.id, SourceRevisionId(1));
    assert_eq!(revision.previous, None);
    assert_eq!(revision.document.id, DocumentId(fnv1a_uri("file:///a")));
    assert_eq!(revision.text().to_string(), "hello");
    assert_eq!(fnv1a_uri("file:///a"), fnv64("file:///a".as_bytes()));
}

#[test]
fn revisions_follow_one_another() {
    let before = first("hello");
    let command = SourceCommand {
        id: SourceCommandId(2),
        fresh_document_id: None,
        base: Some((before.document.id, before.id)),
        delta: SourceDelta::Edit {
            splices: vec![SourceSplice { old_range: 5..5, new_range: 5..6 }],
        },
        next_text: ropey::Rope::from_str("hello!"),
    };
    let next = fold_command(&"file:///a".to_string(), &command, Some(&before)).ok().unwrap();
    assert_eq!(next.id, SourceRevisionId(2));
    assert_eq!(next.previous, Some(SourceRevisionId(1)));
    assert_eq!(next.coordinates.map_old_to_new(4), Some((4, 0)));
    let mut work = SourceWork::default();
    record_fold_work(&next, &mut work);
    assert_eq!(work.coordinate_islands_built, next.coordinates.islands.len() as u64);
    assert!(next != before);
}

#[test]
fn a_command_against_another_revision_is_stale() {
    let before = first("hello");
    let command = SourceCommand {
        id: SourceCommandId(2),
        fresh_document_id: None,
        base: Some((before.document.id, SourceRevisionId(9))),
        delta: SourceDelta::Load { new_len: 1 },
        next_text: ropey::Rope::from_str("x"),
    };
    assert!(matches!(
        fold_command(&"file:///a".to_string(), &command, Some(&before)),
        Err(SourceError::StaleRevision),
    ));
}

#[test]
fn a_document_needs_a_uri_that_parses() {
    assert!(matches!(
        source_document(&"no uri".to_string(), Some(&load("x", 1)), None),
        Err(SourceError::InvalidUri),
    ));
    assert!(matches!(
        source_document(&"file:///a".to_string(), Some(&load("x", 1)), None),
        Ok(SourceStep::Publish(_)),
    ));
    assert!(matches!(
        source_document(&"no uri".to_string(), None, None),
        Ok(SourceStep::Retract),
    ));
    // A command against another revision is refused before its URI is looked at.
    let mut stale = load("x", 1);
    stale.base = Some((DocumentId(7), SourceRevisionId(1)));
    assert!(matches!(
        source_document(&"no uri".to_string(), Some(&stale), None),
        Err(SourceError::StaleRevision),
    ));
}

#[test]
fn a_snapshot_reads_by_bytes() {
    let snapshot = SourceSnapshot(first("h\u{e9}llo"));
    assert_eq!(snapshot.revision_id(), 1);
    assert_eq!(snapshot.len_bytes(), 6);
    assert!(!snapshot.is_empty());
    assert_eq!(snapshot.byte_slice(1..3).unwrap(), "\u{e9}");
    assert_eq!(snapshot.byte_slice(1..2).unwrap_err(), SourceError::OffBoundary);
    assert_eq!(snapshot.byte_slice(3..99).unwrap_err(), SourceError::OffBoundary);
    assert_eq!(snapshot.to_string(), "h\u{e9}llo");
    assert_eq!(snapshot.rope().len_chars(), 5);
}

#[test]
fn command_ids_count_up() {
    let mut ids = CommandIds::new();
    let a = ids.next_command_id();
    let b = ids.next_command_id();
    assert_eq!(b, a + 1);
}

#[test]
fn commands_are_equal_by_their_id() {
    assert!(load("a", 1) == load("b", 1));
    assert!(load("a", 1) != load("a", 2));
}

#[test]
fn hashes_are_fnv_1a() {
    assert_eq!(fnv64(b""), 0xcbf2_9ce4_8422_2325);
    assert_eq!(fnv64(b"a"), 0xaf63_dc4c_8601_ec8c);
    assert_eq!(fnv64_from(fnv64(b"fo"), b"o"), fnv64(b"foo"));
}

#[test]
fn ropes_are_cut_and_replaced_by_bytes() {
    let mut rope = ropey::Rope::from_str("a\u{e9}b");
    assert!(is_rope_char_boundary(&rope, 1));
    assert!(!is_rope_char_boundary(&rope, 2));
    assert!(is_rope_char_boundary(&rope, 4));
    assert!(!is_rope_char_boundary(&rope, 5));
    assert_eq!(rope_byte_slice(&rope, 1, 3), "\u{e9}");
    rope_replace(&mut rope, 1, 3, "xyz");
    assert_eq!(rope.to_string(), "axyzb");
}

#[test]
fn a_cursor_reads_bytes_and_chunks() {
    let text = "0123456789".repeat(500) + "\u{e9}!";
    let cursor = RopeCursor::new(Arc::new(ropey::Rope::from_str(&text)));
    assert_eq!(cursor.len_bytes(), text.len());
    assert!(!cursor.is_empty());
    assert_eq!(cursor.byte_at(13), Some(b'3'));
    assert_eq!(cursor.byte_at(text.len()), None);
    assert_eq!(cursor.slice_range(4999, 5002), "9\u{e9}");
    for offset in [0, 1, 999, 2500, 4999, 5000] {
        let (chunk, start) = cursor.chunk_containing(offset);
        assert!(start <= offset && offset < start + chunk.len());
        assert_eq!(&text[start..start + chunk.len()], chunk);
    }
    assert_eq!(cursor.rope().len_bytes(), text.len());
}

#[test]
fn a_slot_is_read_back() {
    let mut store = SlotStore::new(3);
    let slot = Slot::new(1);
    assert_eq!(slot.index(), 1);
    assert_eq!(store.get(slot), None);
    store.set(slot, 7);
    assert_eq!(store.get(slot), Some(7));
    assert_eq!(store.get(Slot::new(2)), None);
    let copy = store.copied();
    assert!(store.same(&copy));
    store.remove(slot);
    assert_eq!(store.get(slot), None);
    assert!(!store.same(&copy));
}

#[test]
fn conditions_and_effects_see_the_states_around_them() {
    let mut current = SlotStore::new(2);
    current.set(Slot::new(0), 1);
    let mut parent = SlotStore::new(2);
    parent.set(Slot::new(1), 2);
    let when = WhenCx::new("if", LexMoment::Normal, 3, &current, Some(&parent));
    assert_eq!(when.lexeme(), "if");
    assert_eq!(when.moment(), LexMoment::Normal);
    assert_eq!(when.depth(), 3);
    assert_eq!(when.get(Slot::new(0)), Some(1));
    assert_eq!(when.parent_get(Slot::new(1)), Some(2));
    let mut with = WithCx::new("", LexMoment::Eof, 1, SlotStore::new(2), current, None);
    assert_eq!(with.source_get(Slot::new(0)), Some(1));
    assert_eq!(with.parent_get(Slot::new(1)), None);
    with.set(Slot::new(0), 9);
    assert_eq!(with.get(Slot::new(0)), Some(9));
    with.remove(Slot::new(0));
    assert_eq!(with.get(Slot::new(0)), None);
    assert_eq!(with.depth(), 1);
    assert_eq!(with.moment(), LexMoment::Eof);
    assert_eq!(with.lexeme(), "");
}

fn root() -> State {
    State { id: 0, slots: SlotStore::new(0) }
}

#[test]
fn open_states_are_kept_without_their_place() {
    let mut state = LexerState::new(root());
    state.offset = 17;
    let kept = CanonicalLexerState::from_state(&state);
    let back = kept.materialize(4);
    assert_eq!(back.offset, 4);
    assert_eq!(back.state_stack.len(), 1);
    assert!(kept.same(&CanonicalLexerState::from_state(&back)));
    let mut interner = LexerStateInterner::new();
    let a = interner.intern(&state);
    let b = interner.intern(&back);
    assert!(Arc::ptr_eq(&a, &b));
}

/// Words are terminal 0 and numbers terminal 1; blanks are skipped, and any
/// other character is an error.
struct Words;

impl Scanner<u8> for Words {
    fn next_token(
        &self,
        state: &LexerState,
        source: &ropey::Rope,
    ) -> Result<Option<Scanned<u8>>, LexInterrupt> {
        let text = source.to_string();
        let rest = &text.as_bytes()[state.offset..];
        if rest.is_empty() {
            return Ok(None);
        }
        if rest[0] == b'%' {
            return Err(LexInterrupt::NoCandidate);
        }
        let class = |byte: u8| {
            if byte.is_ascii_alphabetic() {
                0
            } else if byte.is_ascii_digit() {
                1
            } else if byte == b' ' {
                2
            } else {
                3
            }
        };
        let kind = class(rest[0]);
        let mut len = 1;
        while kind < 3 && len < rest.len() && class(rest[len]) == kind {
            len += 1;
        }
        let start = state.offset;
        let end = start + len;
        let token = ScannedToken {
            start,
            end,
            terminal: if kind < 2 { Some(kind) } else { None },
            skip: kind == 2,
            error: if kind == 3 { Some(LexErrorKind::UnexpectedInput) } else { None },
            value: rest[0],
        };
        let mut after = CanonicalLexerState::from_state(state).materialize(end);
        after.offset = end;
        Ok(Some(Scanned { token, after }))
    }
}

fn rope(text: &str) -> ropey::Rope {
    ropey::Rope::from_str(text)
}

fn cold(text: &str) -> LexDocument<u8> {
    derive_document(
        &Words,
        None,
        StableDocumentId(3),
        root(),
        &rope(text),
        &SourceDelta::Load { new_len: text.len() },
    )
    .ok()
    .unwrap()
}

fn edited(
    before: &LexicalDocument<u8>,
    text: &str,
    splices: Vec<SourceSplice>,
) -> LexDocument<u8> {
    derive_document(
        &Words,
        Some(before),
        StableDocumentId(3),
        root(),
        &rope(text),
        &SourceDelta::Edit { splices },
    )
    .ok()
    .unwrap()
}

fn lengths(document: &LexicalDocument<u8>) -> Vec<u32> {
    document.lexical.iter().map(|token| token.byte_len).collect()
}

#[test]
fn a_document_is_lexed_into_tokens() {
    let lexed = cold("ab 12 c");
    let document = &lexed.document;
    assert_eq!(lengths(document), vec![2, 1, 2, 1, 1]);
    assert_eq!(document.semantic.len(), 3);
    assert_eq!(document.lexical_start(2), 3);
    assert_eq!(document.lexical_rank_at_byte(4), 2);
    let id = document.lexical[2].id;
    assert_eq!(document.lexical_rank_of(id), Some(2));
    assert_eq!(document.semantic_rank_of(id), Some(1));
    assert_eq!(document.semantic_at(1).unwrap().occurrence, id);
    assert_eq!(document.lexical_at(2).unwrap().terminal, Some(1));
    assert!(document.lexical_at(9).is_none());
    assert_eq!(document.state_before_rank(2).state_stack.len(), 1);
    assert_eq!(lexed.patch.inserted.len(), 3);
}

#[test]
fn an_edit_keeps_the_tokens_around_it() {
    let before = cold("ab 12 c").document;
    let after = edited(
        &before,
        "ab 192 c",
        vec![SourceSplice { old_range: 4..4, new_range: 4..5 }],
    );
    assert_eq!(lengths(&after.document), vec![2, 1, 3, 1, 1]);
    // What is before and behind the edit keeps its identity.
    assert_eq!(after.document.lexical[0].id, before.lexical[0].id);
    assert_eq!(after.document.lexical[4].id, before.lexical[4].id);
    assert_eq!(after.document.source.to_string(), "ab 192 c");
}

#[test]
fn the_same_text_changes_nothing() {
    let before = cold("ab").document;
    let after = edited(&before, "ab", vec![]);
    assert!(after.patch.is_empty());
    assert!(after.stats.is_none());
    assert_eq!(after.document.structure_revision, before.structure_revision);
}

#[test]
fn splices_that_do_not_fit_are_refused() {
    let before = cold("ab").document;
    let result = derive_document(
        &Words,
        Some(&before),
        StableDocumentId(3),
        root(),
        &rope("abc"),
        &SourceDelta::Edit { splices: vec![] },
    );
    assert!(matches!(result, Err(LexInterrupt::InternalError(LexFault::WrongText))));
    let result = derive_document(
        &Words,
        Some(&before),
        StableDocumentId(3),
        root(),
        &rope("abc"),
        &SourceDelta::Edit {
            splices: vec![SourceSplice { old_range: 5..6, new_range: 5..7 }],
        },
    );
    assert!(matches!(result, Err(LexInterrupt::InternalError(LexFault::DeltaMismatch))));
}

#[test]
fn what_the_scanner_refuses_ends_the_command() {
    let result = derive_document(
        &Words,
        None::<&LexicalDocument<u8>>,
        StableDocumentId(3),
        root(),
        &rope("a%"),
        &SourceDelta::Load { new_len: 2 },
    );
    assert!(matches!(result, Err(LexInterrupt::NoCandidate)));
}

#[test]
fn errors_are_listed_with_their_place() {
    let document = cold("a ?").document;
    let errors = document.error_list();
    assert_eq!(errors.len(), 1);
    assert_eq!((errors[0].start, errors[0].end), (2, 3));
    assert_eq!(errors[0].kind, LexErrorKind::UnexpectedInput);
    let all = document.token_list();
    assert!(all.len() >= 2);
    let some = document.tokens_in_span(ByteRange { start: 0, end: 1 });
    assert!(some.iter().any(|token| token.start == 0 && token.length == 1));
}

#[test]
fn token_facts_follow_a_patch() {
    let lexed = cold("ab 12");
    let all = republish_token_facts(&lexed.document);
    let patched = patch_token_facts(&lexed.document, &lexed.patch);
    assert_eq!(patched.removed.len(), 0);
    assert_eq!(patched.written.len(), 2);
    assert!(matches!(patched.written[0].key.token, TokenFactId::Source(_)));
    assert_eq!(*patched.written[0].fact.value, b'a');
    assert!(all.written.len() >= 2);
    let gone = retract_token_facts(&lexed.document);
    assert_eq!(gone.written.len(), 0);
    assert_eq!(gone.removed.len(), all.written.len());
    let published = publish_token_facts(&lexed.document, &lexed.patch, true, false);
    assert_eq!(published.written.len(), all.written.len());
}

#[test]
fn the_parser_reads_the_tokens_it_needs() {
    let lexed = cold("ab 12 c");
    let data = lexed.document.token_data_snapshot();
    // The end is the last token.
    assert_eq!(data.len(), 4);
    assert_eq!((data[3].start, data[3].length), (7, 0));
    assert_eq!((data[1].start, data[1].length), (3, 2));
    assert_eq!(data[1].terminal, Some(1));
    let tokens = ParserTokenDocument::from_lexical(&lexed.document).unwrap();
    assert_eq!(tokens.semantic_len(), 3);
    assert_eq!(tokens.document(), StableDocumentId(3));
    assert_eq!(tokens.rank_of_occurrence(data[2].column), Some(2));
    assert_eq!(tokens.rank_of_occurrence(TokenOccurrenceId(99)), None);
}

#[test]
fn fingerprints_tell_tokens_apart() {
    let document = cold("ab 12 ab").document;
    let (a, b, c) = (&document.lexical[0], &document.lexical[2], &document.lexical[4]);
    assert!(a.is_semantic());
    assert!(!document.lexical[1].is_semantic());
    assert_eq!(a.fingerprint(), c.fingerprint());
    assert_ne!(a.fingerprint(), b.fingerprint());
    assert!(a.structural_eq(c));
    assert!(!a.structural_eq(b));
    assert!(a.exact_payload_eq(c));
    assert_eq!(a.terminal_key(), c.terminal_key());
    assert!(a.exact_segment_eq(&a.copied()));
}

#[test]
fn offsets_are_moved_by_splices() {
    assert_eq!(translate_offset(10, 3, 1), Ok(12));
    assert_eq!(translate_offset(1, 0, 2), Err(LexFault::TranslationOverflow));
    let mut text = rope("abc");
    assert!(apply_evolving_splice(&mut text, 1, 2, "xy").is_ok());
    assert_eq!(text.to_string(), "axyc");
    assert_eq!(
        apply_evolving_splice(&mut text, 3, 9, ""),
        Err(LexFault::SnapshotMismatch),
    );
    let splices = vec![SourceSplice { old_range: 0..1, new_range: 0..2 }];
    assert!(validate_source_delta(&rope("abc"), &rope("xybc"), &splices).is_ok());
    assert_eq!(
        validate_source_delta(&rope(""), &rope("xy"), &splices),
        Err(LexFault::DeltaMismatch),
    );
}

#[test]
fn an_empty_document_has_no_tokens() {
    let document: LexicalDocument<u8> = LexicalDocument::empty(document_id("file:///a"), root());
    assert_eq!(document.lexical.len(), 0);
    assert_eq!(document.semantic.len(), 0);
    assert_eq!(document.document, document_id("file:///a"));
    assert_ne!(document_id("file:///a"), document_id("file:///b"));
    let patch = TokenPatch::unchanged(TokenStructureRevisionId(4));
    assert!(patch.is_empty());
    assert!(patch.structure_unchanged());
}

#[test]
fn work_is_added_up() {
    let mut a = LexerWork::default();
    let mut b = LexerWork::default();
    a.tokens_inserted = 2;
    b.tokens_inserted = 3;
    b.component_runs = 1;
    a.merge(&b);
    assert_eq!(a.tokens_inserted, 5);
    assert_eq!(a.component_runs, 1);
}

#[test]
fn failures_say_what_they_are_about() {
    match LexInterrupt::token_parse_failed("number", "12x", "bad digit") {
        LexInterrupt::TokenParseError { token, lexeme, err } => {
            assert_eq!(token, "number");
            assert_eq!(lexeme, "12x");
            assert_eq!(err, "bad digit");
        },
        _ => panic!("a token did not parse"),
    }
    assert_eq!(UnsupportedDefaultParseError::new("u7").ty(), "u7");
    assert!(!LexFault::WrongText.message().is_empty());
}

fn lexer() -> Lexer<u8> {
    Lexer::new(vec![], vec![vec![], vec![]])
}

fn uri() -> String {
    "file:///a".to_string()
}

/// The second revision, with another text in place of the first.
fn second(before: &SourceRevision, text: &str, splice: SourceSplice) -> SourceRevision {
    let command = SourceCommand {
        id: SourceCommandId(2),
        fresh_document_id: None,
        base: Some((before.document.id, before.id)),
        delta: SourceDelta::Edit { splices: vec![splice] },
        next_text: rope(text),
    };
    fold_command(&uri(), &command, Some(before)).ok().unwrap()
}

#[test]
fn a_lexer_keeps_documents_under_their_names() {
    let mut lexer = lexer();
    assert!(lexer.document(&uri()).is_none());
    assert_eq!(lexer.incremental_stats(&uri()).is_some(), false);
    let lexed = lexer
        .derive_document(&Words, root(), &uri(), &rope("ab 12"), &SourceDelta::Load { new_len: 5 })
        .ok()
        .unwrap();
    assert_eq!(lengths(lexer.document(&uri()).unwrap()), vec![2, 1, 2]);
    assert!(lexer.incremental_stats(&uri()).is_some());
    let number = lexed.document.lexical[2].id.0 as usize;
    assert_eq!(lexer.terminal_of(number), Some(1));
    assert_eq!(lexer.token(number).unwrap().start, 3);
    let span = lexer.token_span(number).unwrap();
    assert_eq!(span.uri, uri());
    assert_eq!(span.range, ByteRange { start: 3, end: 5 });
    assert_eq!(lexer.token(usize::MAX - 7).is_some(), false);
    assert_eq!(lexer.terminal_of(usize::MAX - 7), None);
    assert!(lexer.token_span(usize::MAX - 7).is_none());
    let front = Span { uri: uri(), range: ByteRange { start: 0, end: 2 } };
    assert_eq!(lexer.tokens_in_span(&front).len(), 1);
    let data = lexer.token_data_in_span(&front);
    assert_eq!(data.len(), 1);
    assert_eq!((data[0].start, data[0].length, data[0].terminal), (0, 2, Some(0)));
    let other = Span { uri: "file:///b".to_string(), range: ByteRange { start: 0, end: 2 } };
    assert_eq!(lexer.tokens_in_span(&other).len(), 0);
    assert_eq!(lexer.token_data_in_span(&other).len(), 0);
    assert_eq!(lexer.tokens_in_state(&root()).unwrap().len(), 0);
    assert!(lexer.tokens_in_state(&State { id: 2, slots: SlotStore::new(0) }).is_none());
    assert_eq!(lexer.resolved_tokens().len(), 2);
    assert_eq!(lexer.state_info().len(), 0);
    lexer.forget_document(&"file:///b".to_string());
    assert!(lexer.document(&uri()).is_some());
    lexer.forget_document(&uri());
    assert!(lexer.document(&uri()).is_none());
}

#[test]
fn the_tokens_of_a_document_follow_its_text() {
    let mut lexer = lexer();
    let before = first("ab 12 c");
    let opened = match lex_document(&mut lexer, &Words, root(), &uri(), Some(&before), None) {
        Ok(LexStep::Published(publication)) => publication,
        _ => panic!("the document is opened"),
    };
    assert_eq!(opened.facts.written.len(), 3);
    assert_eq!(opened.facts.removed.len(), 0);
    assert_eq!(opened.layout.document_uri, uri());
    assert_eq!(opened.semantic.document_uri, uri());
    let after = second(
        &before,
        "ab 192 c",
        SourceSplice { old_range: 4..4, new_range: 4..5 },
    );
    let published = opened.derived.document;
    let edited =
        match lex_document(&mut lexer, &Words, root(), &uri(), Some(&after), Some(&published)) {
            Ok(LexStep::Published(publication)) => publication,
            _ => panic!("the document is edited"),
        };
    assert_eq!(edited.facts.written.len(), 1);
    assert!(!edited.layout.same(&opened.layout));
    // A token that only changed keeps the order of the tokens.
    assert!(edited.semantic.same(&opened.semantic));
    assert_eq!(lengths(lexer.document(&uri()).unwrap()), vec![2, 1, 3, 1, 1]);
    let published = edited.derived.document;
    match lex_document(&mut lexer, &Words, root(), &uri(), None, Some(&published)) {
        Ok(LexStep::Closed(facts)) => {
            assert_eq!(facts.removed.len(), 3);
            assert_eq!(facts.written.len(), 0);
        },
        _ => panic!("the document is closed"),
    }
    assert!(lexer.document(&uri()).is_none());
}

#[test]
fn facts_that_were_taken_back_come_again() {
    let mut lexer = lexer();
    let before = first("ab 12 c");
    let _ = lex_document(&mut lexer, &Words, root(), &uri(), Some(&before), None);
    let after = second(
        &before,
        "ab 192 c",
        SourceSplice { old_range: 4..4, new_range: 4..5 },
    );
    match lex_document(&mut lexer, &Words, root(), &uri(), Some(&after), None) {
        Ok(LexStep::Published(publication)) => {
            assert_eq!(publication.facts.removed.len(), 0);
            assert_eq!(publication.facts.written.len(), 3);
        },
        _ => panic!("the document is published"),
    }
}

#[test]
fn a_refused_text_leaves_the_lexer_as_it_was() {
    let mut lexer = lexer();
    let before = first("ab");
    let _ = lex_document(&mut lexer, &Words, root(), &uri(), Some(&before), None);
    let after = second(&before, "ab%", SourceSplice { old_range: 2..2, new_range: 2..3 });
    assert!(matches!(
        lex_document(&mut lexer, &Words, root(), &uri(), Some(&after), None),
        Err(LexInterrupt::NoCandidate),
    ));
    assert_eq!(lengths(lexer.document(&uri()).unwrap()), vec![2]);
    match lex_document(&mut lexer, &Words, root(), &"file:///b".to_string(), None, None) {
        Ok(LexStep::Closed(facts)) => assert_eq!(facts.removed.len(), 0),
        _ => panic!("nothing was open"),
    }
}

#[test]
fn a_token_list_finds_tokens_by_their_handles() {
    let lexed = cold("ab 12 ?");
    let list = TokenVec::new(&lexed.document);
    assert_eq!(list.errors.len(), 1);
    assert!(list.same(&TokenVec::new(&lexed.document)));
    let moved = edited(
        &lexed.document,
        "ab 12 ??",
        vec![SourceSplice { old_range: 7..7, new_range: 7..8 }],
    );
    assert!(!list.same(&TokenVec::new(&moved.document)));
    let id = lexed.document.lexical[2].id.0 as usize;
    let handle = |id: usize| AstToken::<u8> {
        id,
        occurrence: id,
        document: 3,
        marker: std::marker::PhantomData,
    };
    assert_eq!(list.token(handle(id)).unwrap().start, 3);
    assert!(list.token(handle(id + 1000)).is_none());
    let facts = republish_token_facts(&lexed.document).written;
    assert_eq!(*observe_token(&facts, handle(id)).unwrap(), b'1');
    assert!(observe_token(&facts, handle(id + 1000)).is_none());
    assert!(observe_token(&facts, AstToken { document: 4, ..handle(id) }).is_none());
}

#[test]
fn a_text_is_its_own_value() {
    assert_eq!(String::from_lexeme("name").unwrap(), "name");
}

#[test]
fn the_tokens_cover_the_text() {
    let covered = |document: &LexicalDocument<u8>| {
        lengths(document).iter().map(|len| *len as usize).sum::<usize>()
            == document.source.len_bytes()
    };
    let opened = cold("ab 12 ?c").document;
    assert!(covered(&opened));
    let after = edited(
        &opened,
        "ab  9c",
        vec![
            SourceSplice { old_range: 3..5, new_range: 3..3 },
            SourceSplice { old_range: 6..7, new_range: 4..5 },
        ],
    );
    assert!(covered(&after.document));
    let emptied = edited(
        &after.document,
        "",
        vec![SourceSplice { old_range: 0..6, new_range: 0..0 }],
    );
    assert!(covered(&emptied.document));
}

#[test]
fn the_tokens_of_a_new_document_are_numbered_in_order() {
    let opened = cold("ab 12 ?c").document;
    let numbers: Vec<u64> = opened.lexical.iter().map(|token| token.id.0).collect();
    assert_eq!(numbers, vec![0, 1, 2, 3, 4, 5]);
    assert_eq!(lengths(&opened), vec![2, 1, 2, 1, 1, 1]);
    assert_eq!(cold("").document.lexical.len(), 0);
}

#[test]
fn facts_that_are_out_are_the_tokens_of_the_text() {
    let mut lexer = lexer();
    let mut out: Vec<(TokenFactKey, u8)> = Vec::new();
    let before = first("ab 12 c");
    let after = second(
        &before,
        "ab 1 2 c",
        SourceSplice { old_range: 4..4, new_range: 4..5 },
    );
    let mut published: Option<LexicalDocument<u8>> = None;
    for revision in [Some(&before), Some(&after), None] {
        let step =
            lex_document(&mut lexer, &Words, root(), &uri(), revision, published.as_ref());
        let facts = match step {
            Ok(LexStep::Published(publication)) => {
                published = Some(publication.derived.document);
                publication.facts
            },
            Ok(LexStep::Closed(facts)) => {
                published = None;
                facts
            },
            Err(_) => panic!("the text is lexed"),
        };
        out.retain(|(key, _)| !facts.removed.contains(key));
        for write in &facts.written {
            out.retain(|(key, _)| *key != write.key);
            out.push((write.key, *write.fact.value));
        }
        let tokens = published.as_ref().map_or(0, |document| document.semantic.len());
        assert_eq!(out.len(), tokens);
        if let Some(document) = &published {
            for token in &document.semantic {
                assert!(out.iter().any(|(key, _)| key.token
                    == TokenFactId::Source(token.occurrence)));
            }
        }
    }
}

#[test]
fn the_work_of_the_lexer_is_counted() {
    let opened = cold("ab 12 c");
    assert_eq!(opened.work.len(), 1);
    assert_eq!(opened.work[0].tokens_replayed, 5);
    assert_eq!(opened.work[0].tokens_inserted, 3);
    let lexed = edited(
        &opened.document,
        "ab 192 c",
        vec![SourceSplice { old_range: 4..4, new_range: 4..5 }],
    );
    // The number is read again, and reading stops behind it.
    assert_eq!(
        lexed.work,
        vec![LexerWork {
            checkpoint_lookups: 2,
            restart_bytes: 3,
            restart_occurrences: 2,
            lexical_entries_visited: 2,
            semantic_entries_visited: 2,
            tokens_replayed: 1,
            tokens_reused: 2,
            token_fact_writes: 1,
            convergence_checks: 1,
            convergence_candidates: 1,
            transferred_tape_intervals: 1,
            tape_nodes_reused: 1,
            ..LexerWork::default()
        }],
    );
    let mut lexer = lexer();
    let before = first("ab");
    let step = lex_document(&mut lexer, &Words, root(), &uri(), Some(&before), None);
    let work = lexer_run_work(&step.ok().unwrap()).unwrap();
    assert_eq!(work.component_runs, 1);
    assert_eq!(work.tokens_replayed, 1);
}
