//! Frontiers of parse stacks up to the identity of their nodes.

use plingo::framework::parse::data::frontier::CanonicalFrontierKey;
use plingo::framework::parse::data::ast::{AnchoredSpan, AstArena};
use plingo::framework::parse::data::gss::GssArena;
use plingo::framework::parse::data::product::{Product, ProductArena};
use plingo::framework::parse::parsing::columns::FrontierCheckpoint;
use plingo::framework::parse::types::{FullReplayReason, ParserWork};

#[test]
fn canonical_frontier_ignores_node_ids_and_edge_order() {
    let mut products = ProductArena::new();
    let first = products.insert(Product::token(1, 7));
    let second = products.insert(Product::token(2, 8));
    let mut gss = GssArena::new();

    let old_root = gss.node(1, 10, 0);
    let old_first = gss.node(2, 0, 0);
    let old_second = gss.node(3, 0, 0);
    gss.add_edge(old_root, old_first, first, 0);
    gss.add_edge(old_root, old_second, second, 0);

    let new_root = gss.node(1, 11, 0);
    let new_first = gss.node(2, 1, 0);
    let new_second = gss.node(3, 1, 0);
    gss.add_edge(new_root, new_second, second, 0);
    gss.add_edge(new_root, new_first, first, 0);

    let old = gss.canonical_frontier((&[old_root], &[]), &products).expect("old frontier");
    let new = gss.canonical_frontier((&[new_root], &[]), &products).expect("new frontier");
    assert!(old.key.same(&new.key));
    assert!(!old.ambiguous);
    assert!(!new.ambiguous);
    assert_eq!(
        gss.match_canonical_frontiers((&[old_root], &[]), (&[new_root], &[]), &products)
            .expect("canonical match")
            .0
            .get(&old_root),
        Some(&new_root)
    );
}

#[test]
fn equivalent_frontier_roots_are_conservatively_ambiguous() {
    let mut products = ProductArena::new();
    let token = products.insert(Product::token(1, 7));
    let mut gss = GssArena::new();
    let child = gss.node(2, 0, 0);
    let first_root = gss.node(1, 10, 0);
    let second_root = gss.node(1, 11, 0);
    gss.add_edge(first_root, child, token, 0);
    gss.add_edge(second_root, child, token, 0);

    let frontier = gss
        .canonical_frontier((&[first_root, second_root], &[]), &products)
        .expect("frontier");
    assert!(frontier.ambiguous);
    assert!(gss
        .match_canonical_frontiers(
            (&[first_root, second_root], &[]),
            (&[first_root, second_root], &[]),
            &products
        )
        .is_none());
}

#[test]
fn fingerprint_collision_still_requires_exact_key() {
    let equal = FrontierCheckpoint {
        anchor: None,
        key: Some(CanonicalFrontierKey { base: Vec::new(), active: Vec::new() }),
        fingerprint: 17,
        error_derived: false,
    };
    let unequal = FrontierCheckpoint { key: None, ..equal.copied() };
    assert!(!equal.exact_match(&unequal));
    assert!(equal.exact_match(&equal));
}

#[test]
fn a_frontier_with_another_state_has_another_key() {
    let products = ProductArena::new();
    let mut gss = GssArena::new();
    let one = gss.node(1, 0, 0);
    let two = gss.node(2, 0, 0);
    let first = gss.canonical_frontier((&[one], &[]), &products).expect("first");
    let second = gss.canonical_frontier((&[two], &[]), &products).expect("second");
    assert!(!first.key.same(&second.key));
    assert!(gss.match_canonical_frontiers((&[one], &[]), (&[two], &[]), &products).is_none());
}

#[test]
fn a_node_is_made_once() {
    let mut gss = GssArena::new();
    let a = gss.node(1, 0, 0);
    let b = gss.node(1, 1, 0);
    assert_eq!((a, b), (0, 1));
    gss.seal_generation();
    assert_eq!(gss.node(1, 0, 0), a);
    assert_eq!(gss.node(1, 0, 1), 2);
    assert_eq!(gss.node(1, 1, 0), b);
    assert_eq!(gss.node_count(), 3);
}

#[test]
fn records_are_read_back() {
    let mut arena: AstArena<char> = AstArena::with_document(7);
    let node = arena.insert('x', AnchoredSpan::token(4));
    let other = arena.insert('y', AnchoredSpan::point(5));
    arena.bind_product(0, 9);
    arena.seal_generation();
    arena.set_parent(0, Some(1));
    assert_eq!(arena.get(node), Some(&'x'));
    assert_eq!(arena.get_id(1), Some(&'y'));
    assert_eq!(arena.extent(node), Some(AnchoredSpan::token(4)));
    assert_eq!(arena.extent(other), Some(AnchoredSpan::point(5)));
    assert_eq!(arena.product_of(0), Some(9));
    assert_eq!(arena.parent_of(0), Some(1));
}

#[test]
fn the_first_reason_of_a_command_is_kept() {
    let mut work = ParserWork::default();
    work.record_full_replay(FullReplayReason::NoRetainedRightBoundary);
    work.record_full_replay(FullReplayReason::RecoveryProofFailed);
    work.record_full_replay(FullReplayReason::ExplicitColdParse);
    assert_eq!(
        work,
        ParserWork {
            eof_replays: 3,
            full_replay_reason: Some(FullReplayReason::NoRetainedRightBoundary),
            full_replay_reason_count: 1,
            ..ParserWork::default()
        },
    );
}
