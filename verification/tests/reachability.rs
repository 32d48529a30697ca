//! What accepted roots reach.

use std::collections::BTreeMap;

use plingo::framework::parse::data::ast::{AnchoredSpan, AstArena};
use plingo::framework::parse::data::product::{Product, ProductArena};
use plingo::framework::parse::parsing::error::ParseError;
use plingo::framework::parse::parsing::reachability::{
    apply_accepted_root_delta, checked_reach_count, slow_accepted_root_reach, ReachabilityUpdate,
};
use plingo::framework::parse::types::{ParserTreeFacts, RecordTransition};
use plingo::store::RadixMap;

fn arenas() -> (AstArena<usize>, ProductArena) {
    (AstArena::new("test://accepted-root"), ProductArena::new())
}

fn node(
    ast: &mut AstArena<usize>,
    products: &mut ProductArena,
    value: usize,
    children: Vec<usize>,
) -> usize {
    let record = ast.insert(value, AnchoredSpan::point(0));
    products.insert(Product::node(0, record, children))
}

fn counts_of(map: &RadixMap<u32>) -> BTreeMap<u64, u32> {
    (0..map.len()).map(|i| (map.key_at(i), *map.value_at(i))).collect()
}

fn product_counts(update: &ReachabilityUpdate) -> BTreeMap<u64, u32> {
    counts_of(&update.product_reach_counts)
}

fn record_counts(update: &ReachabilityUpdate) -> BTreeMap<u64, u32> {
    counts_of(&update.record_reach_counts)
}

fn facts(update: ReachabilityUpdate) -> ParserTreeFacts {
    ParserTreeFacts {
        records: update.live_records,
        product_reach_counts: update.product_reach_counts,
        record_reach_counts: update.record_reach_counts,
        ..ParserTreeFacts::new()
    }
}

fn keyed(pairs: &[(usize, u32)]) -> BTreeMap<u64, u32> {
    pairs.iter().map(|(key, count)| (*key as u64, *count)).collect()
}

#[test]
fn accepted_root_reachability_preserves_shared_and_duplicate_edges() {
    let (mut ast, mut products) = arenas();
    let child = node(&mut ast, &mut products, 0, Vec::new());
    let parent = node(&mut ast, &mut products, 1, vec![child, child]);

    let update =
        apply_accepted_root_delta(&ParserTreeFacts::new(), &[], &[parent], &products).unwrap();
    assert_eq!(product_counts(&update), keyed(&[(child, 2), (parent, 1)]));
    assert_eq!(record_counts(&update), keyed(&[(0, 1), (1, 1)]));
    let slow = slow_accepted_root_reach(&[parent], &products).unwrap();
    assert_eq!(
        (counts_of(&slow.0), counts_of(&slow.1)),
        (product_counts(&update), record_counts(&update))
    );

    let duplicate_roots =
        apply_accepted_root_delta(&ParserTreeFacts::new(), &[], &[parent, parent], &products)
            .unwrap();
    assert_eq!(product_counts(&duplicate_roots), keyed(&[(child, 2), (parent, 2)]));
    assert_eq!(record_counts(&duplicate_roots), keyed(&[(0, 1), (1, 1)]));
}

#[test]
fn accepted_root_reachability_counts_shared_parent_edges_once_per_parent() {
    let (mut ast, mut products) = arenas();
    let child = node(&mut ast, &mut products, 0, Vec::new());
    let left = node(&mut ast, &mut products, 1, vec![child]);
    let right = node(&mut ast, &mut products, 2, vec![child]);

    let update =
        apply_accepted_root_delta(&ParserTreeFacts::new(), &[], &[left, right], &products).unwrap();
    assert_eq!(product_counts(&update), keyed(&[(child, 2), (left, 1), (right, 1)]));
    assert_eq!(record_counts(&update), keyed(&[(0, 1), (1, 1), (2, 1)]));

    let reverted =
        apply_accepted_root_delta(&facts(update), &[left, right], &[], &products).unwrap();
    assert!(product_counts(&reverted).is_empty());
    assert!(record_counts(&reverted).is_empty());
    assert!(reverted.live_records.is_empty());
    assert_eq!(
        reverted.record_journal.get(0),
        Some(&RecordTransition { before_count: 1, after_count: 0 })
    );
}

#[test]
fn accepted_root_reachability_excludes_unreachable_cache_products() {
    let (mut ast, mut products) = arenas();
    let orphan = node(&mut ast, &mut products, 0, Vec::new());
    let root = node(&mut ast, &mut products, 1, Vec::new());

    let update =
        apply_accepted_root_delta(&ParserTreeFacts::new(), &[], &[root], &products).unwrap();
    assert_eq!(product_counts(&update), keyed(&[(root, 1)]));
    assert_eq!(record_counts(&update), keyed(&[(1, 1)]));
    assert!(!product_counts(&update).contains_key(&(orphan as u64)));
    let live = &update.live_records;
    assert_eq!((0..live.len()).map(|i| live.key_at(i)).collect::<Vec<_>>(), vec![1]);
}

#[test]
fn accepted_root_reachability_rejects_underflow_and_non_topological_edges() {
    let (_ast, mut products) = arenas();
    products.insert(Product::error(0));
    let underflow = match apply_accepted_root_delta(&ParserTreeFacts::new(), &[0], &[], &products) {
        Ok(_) => panic!("root removal at zero must fail"),
        Err(error) => error,
    };
    assert!(matches!(
        underflow,
        ParseError::InvalidReachability { kind: "product", key: 0, before: 0, delta: -1 }
    ));

    let (_ast, mut products) = arenas();
    products.insert(Product::error_with_children(0, vec![0]));
    let non_topological =
        match apply_accepted_root_delta(&ParserTreeFacts::new(), &[], &[0], &products) {
            Ok(_) => panic!("self-referential product edge must fail"),
            Err(error) => error,
        };
    assert!(matches!(
        non_topological,
        ParseError::InvalidReachability { kind: "non-topological-edge", key: 0, .. }
    ));
}

#[test]
fn a_change_of_roots_gives_what_a_recomputation_gives() {
    let (mut ast, mut products) = arenas();
    let leaf = node(&mut ast, &mut products, 0, Vec::new());
    let old_root = node(&mut ast, &mut products, 1, vec![leaf, leaf]);
    let new_root = node(&mut ast, &mut products, 2, vec![leaf]);
    let before =
        apply_accepted_root_delta(&ParserTreeFacts::new(), &[], &[old_root], &products).unwrap();
    let after =
        apply_accepted_root_delta(&facts(before), &[old_root], &[new_root], &products).unwrap();
    let slow = slow_accepted_root_reach(&[new_root], &products).unwrap();
    assert_eq!(product_counts(&after), counts_of(&slow.0));
    assert_eq!(record_counts(&after), counts_of(&slow.1));
    assert_eq!(product_counts(&after), keyed(&[(leaf, 1), (new_root, 1)]));
}

#[test]
fn a_reach_count_stays_in_range() {
    assert!(matches!(checked_reach_count("record", 4, 2, -2), Ok(0)));
    assert!(matches!(
        checked_reach_count("record", 4, 1, -2),
        Err(ParseError::InvalidReachability { kind: "record", key: 4, before: 1, delta: -2 })
    ));
    assert!(checked_reach_count("record", 4, u32::MAX, 1).is_err());
}
