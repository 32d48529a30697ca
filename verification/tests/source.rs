//! Edits, splices and coordinate maps of source documents.

use plingo::framework::coordinates::SourceCoordinateMap;
use plingo::framework::source::{
    apply_splices, normalize_edits, SourceEdit, SourceError, SourceSplice,
};
use plingo::utils::{ByteRange, Span, SpanError};

fn insert(start: usize, value: &str) -> SourceEdit {
    SourceEdit::Insert {
        key: Span::new_uri("t://norm".into(), start, start).unwrap(),
        value: value.into(),
    }
}

fn delete(start: usize, end: usize) -> SourceEdit {
    SourceEdit::Delete { key: Span::new_uri("t://norm".into(), start, end).unwrap() }
}

#[test]
fn normalization_drops_exact_equals_and_merges_adjacent() {
    let base = ropey::Rope::from_str("hello world");
    let uri = Span::point("t://norm".into(), 0).unwrap().uri;
    // Equal-width equal-value delete+insert drops out entirely.
    let edits = [
        SourceEdit::Delete { key: Span::new_uri(uri.clone(), 0, 5).unwrap() },
        SourceEdit::Insert {
            key: Span::new_uri(uri.clone(), 0, 0).unwrap(),
            value: "hello".into(),
        },
    ];
    let batch = normalize_edits(Some(&base), &edits).unwrap();
    assert_eq!(batch.splices.len(), 0);

    let edits = [
        SourceEdit::Delete { key: Span::new_uri(uri.clone(), 5, 6).unwrap() },
        SourceEdit::Delete { key: Span::new_uri(uri.clone(), 6, 7).unwrap() },
    ];
    let batch = normalize_edits(Some(&base), &edits).unwrap();
    assert_eq!(batch.splices.len(), 1);
    assert_eq!(batch.splices[0].old_range, 5..7);
}

#[test]
fn coordinate_map_round_trips_unchanged_regions() {
    let splices = vec![SourceSplice { old_range: 3..4, new_range: 3..6 }];
    let map = SourceCoordinateMap::build(10, 12, &splices);
    // Byte 0..3 unchanged: maps 1:1 inside island 0.
    assert_eq!(map.map_old_to_new(2), Some((2, 0)));
    // The changed range never maps as unchanged.
    assert_eq!(map.map_old_to_new(3), None);
}

#[test]
fn coordinate_map_tracks_each_prior_splice_shift() {
    let splices = vec![
        SourceSplice { old_range: 2..3, new_range: 2..5 },
        SourceSplice { old_range: 8..10, new_range: 10..11 },
    ];
    let map = SourceCoordinateMap::build(20, 21, &splices);
    assert_eq!(map.map_old_to_new(1), Some((1, 0)));
    // The second unchanged island includes the +2 shift from the first
    // splice, not the old-coordinate distance from the previous cursor.
    assert_eq!(map.map_old_to_new(4), Some((6, 1)));
    assert_eq!(map.map_old_to_new(10), Some((11, 2)));
    assert_eq!(map.map_old_to_new(19), Some((20, 2)));
}

#[test]
fn apply_splices_produce_expected_text() {
    let base = ropey::Rope::from_str("abcdef");
    let splices = vec![
        SourceSplice { old_range: 1..2, new_range: 1..1 },
        SourceSplice { old_range: 4..5, new_range: 3..5 },
    ];
    let inserted = vec![String::new(), "XY".into()];
    let next = apply_splices(&base, &splices, &inserted).unwrap();
    assert_eq!(next.to_string(), "acdXYf");
}

#[test]
fn an_inserted_text_comes_before_the_deletion_at_the_same_place() {
    let base = ropey::Rope::from_str("abc");
    let batch = normalize_edits(Some(&base), &[delete(1, 2), insert(1, "X")]).unwrap();
    let next = apply_splices(&base, &batch.splices, &batch.inserted).unwrap();
    assert_eq!(next.to_string(), "aXc");
    assert_eq!(batch.bytes_removed, 1);
    assert_eq!(batch.bytes_inserted, 1);
    assert_eq!(batch.validated_operations, 2);
}

#[test]
fn edits_of_a_document_that_is_not_open_are_refused() {
    assert!(matches!(normalize_edits(None, &[insert(0, "a")]), Err(SourceError::Unopened)));
}

#[test]
fn edits_off_the_boundaries_are_refused() {
    let base = ropey::Rope::from_str("a\u{e9}b");
    assert!(matches!(
        normalize_edits(Some(&base), &[insert(2, "x")]),
        Err(SourceError::InsertOutOfBounds { at: 2 })
    ));
    assert!(matches!(
        normalize_edits(Some(&base), &[insert(9, "x")]),
        Err(SourceError::InsertOutOfBounds { at: 9 })
    ));
    assert!(matches!(
        normalize_edits(Some(&base), &[delete(1, 2)]),
        Err(SourceError::InvalidDelete { start: 1, end: 2 })
    ));
    let next = normalize_edits(Some(&base), &[delete(1, 3)]).unwrap();
    assert_eq!(next.splices[0].old_range, 1..3);
}

#[test]
fn overlapping_edits_are_refused() {
    let base = ropey::Rope::from_str("abcdef");
    assert!(matches!(
        normalize_edits(Some(&base), &[delete(0, 3), delete(2, 4)]),
        Err(SourceError::Overlap { .. })
    ));
}

#[test]
fn a_span_does_not_end_before_it_starts() {
    assert!(matches!(
        Span::new_uri("t://x".into(), 4, 3),
        Err(SpanError::Reversed { start: 4, end: 3 })
    ));
    let span = Span::new_uri("t://x".into(), 3, 4).unwrap();
    assert_eq!(span.range, ByteRange { start: 3, end: 4 });
}
