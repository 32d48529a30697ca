//! Paths over labels, the scope graph, and resolution in it.

use std::cmp::Ordering;

use plingo::framework::scope::graph::{
    declarations, declare, edge, ensure_scope, observe_node, observe_scope, outgoing, reference,
    remove_scope, resolve_name, scope, snapshot_declarations, snapshot_node, snapshot_nodes,
    snapshot_outgoing, snapshot_scope, Scope, ScopeDomain, ScopeGraph, ScopeNode,
};
use plingo::framework::scope::order::{partition_visible, PathOrder};
use plingo::framework::scope::path::{Datum, PathExpr, ScopePath};
use plingo::framework::scope::resolve::{copy_list, resolve, same_list, ResolutionPath};

struct Names;

impl ScopeDomain for Names {
    type ScopeData = u64;
    type Label = char;
    type Request = u64;
}

fn any_node(_: &ScopeNode<Names>) -> bool {
    true
}

fn is_declaration(node: &ScopeNode<Names>) -> bool {
    matches!(node, ScopeNode::Declaration(_))
}

/// Whether a path accepts a word, by taking derivatives.
fn accepts(path: &PathExpr<char>, word: &str) -> bool {
    let mut left = path.copied();
    for label in word.chars() {
        left = left.derivative(&label);
    }
    left.nullable()
}

#[test]
fn a_label_accepts_itself_only() {
    let a = PathExpr::label('a');
    assert!(accepts(&a, "a"));
    assert!(!accepts(&a, ""));
    assert!(!accepts(&a, "b"));
    assert!(!accepts(&a, "aa"));
}

#[test]
fn alternatives_sequences_and_repetitions_accept_words() {
    let path = PathExpr::label('a')
        .or(PathExpr::label('b'))
        .star()
        .followed_by(PathExpr::label('c'));
    assert!(accepts(&path, "c"));
    assert!(accepts(&path, "abbac"));
    assert!(!accepts(&path, "ab"));
    assert!(!accepts(&path, "cc"));
}

#[test]
fn building_paths_leaves_out_what_says_nothing() {
    let empty: PathExpr<char> = PathExpr::Empty;
    assert!(PathExpr::label('a').or(empty).same(&PathExpr::label('a')));
    assert!(PathExpr::Epsilon.followed_by(PathExpr::label('a')).same(&PathExpr::label('a')));
    let dead: PathExpr<char> = PathExpr::Empty;
    assert!(PathExpr::label('a').followed_by(dead).same(&PathExpr::Empty));
    let never: PathExpr<char> = PathExpr::Empty;
    assert!(never.star().same(&PathExpr::Epsilon));
    let many = PathExpr::zero_or_more('a');
    assert!(many.copied().star().same(&many));
}

#[test]
fn a_derivative_is_what_may_follow() {
    let path = PathExpr::label('a').followed_by(PathExpr::label('b'));
    assert!(path.derivative(&'a').same(&PathExpr::label('b')));
    assert!(path.derivative(&'b').same(&PathExpr::Empty));
    let many = PathExpr::zero_or_more('a');
    assert!(many.derivative(&'a').same(&many));
    assert!(many.nullable());
}

#[test]
fn the_labels_of_a_path_come_once_each() {
    let path = PathExpr::label('a')
        .followed_by(PathExpr::label('b'))
        .or(PathExpr::label('a').star());
    let labels = path.labels();
    assert_eq!(labels, vec!['a', 'b']);
}

#[test]
fn a_scope_path_is_its_expression() {
    let path = ScopePath::new(PathExpr::zero_or_more('a'));
    assert!(path.nullable());
    assert!(path.derivative(&'b').same(&PathExpr::Empty));
    assert!(path.into_path().same(&PathExpr::zero_or_more('a')));
}

#[test]
fn a_declaration_is_read_back() {
    let mut graph: ScopeGraph<Names> = ScopeGraph::new();
    let owner = scope(&mut graph, 7);
    let declared = declare(&mut graph, owner, 'd', 42);
    assert_ne!(owner, declared);
    assert_eq!(observe_scope(&graph, owner), Some(&7));
    assert!(matches!(observe_node(&graph, declared), Some(ScopeNode::Declaration(42))));
    // Only a scope has scope data.
    assert_eq!(observe_scope(&graph, declared), None);
    assert_eq!(outgoing(&graph, owner, &'d'), vec![declared]);
    assert_eq!(declarations(&graph, owner, &'d'), vec![declared]);
    assert_eq!(resolve_name(&graph, owner, &'d'), vec![42]);
    assert_eq!(resolve_name(&graph, owner, &'e'), Vec::<u64>::new());
}

#[test]
fn an_edge_is_there_once() {
    let mut graph: ScopeGraph<Names> = ScopeGraph::new();
    let a = scope(&mut graph, 1);
    let b = scope(&mut graph, 2);
    edge(&mut graph, a, 'p', b);
    edge(&mut graph, a, 'p', b);
    edge(&mut graph, a, 'q', b);
    assert_eq!(outgoing(&graph, a, &'p'), vec![b]);
    assert_eq!(outgoing(&graph, a, &'q'), vec![b]);
    assert_eq!(outgoing(&graph, b, &'p'), Vec::<Scope>::new());
}

#[test]
fn a_reference_leads_to_its_target() {
    let mut graph: ScopeGraph<Names> = ScopeGraph::new();
    let owner = scope(&mut graph, 1);
    let target = declare(&mut graph, owner, 'd', 5);
    reference(&mut graph, owner, 'r', 9, target);
    assert_eq!(snapshot_nodes(&graph).len(), 3);
    // What is referred to counts as a declaration only under its own label.
    assert_eq!(declarations(&graph, owner, &'d'), vec![target]);
}

#[test]
fn removing_a_scope_removes_its_node() {
    let mut graph: ScopeGraph<Names> = ScopeGraph::new();
    let a = scope(&mut graph, 1);
    let b = scope(&mut graph, 2);
    remove_scope(&mut graph, a);
    assert!(observe_node(&graph, a).is_none());
    assert_eq!(observe_scope(&graph, b), Some(&2));
    ensure_scope(&mut graph, a, 3);
    assert_eq!(observe_scope(&graph, a), Some(&3));
}

#[test]
fn a_snapshot_reads_what_the_graph_holds() {
    let mut graph: ScopeGraph<Names> = ScopeGraph::new();
    let a = scope(&mut graph, 1);
    let d = declare(&mut graph, a, 'd', 2);
    assert_eq!(snapshot_nodes(&graph), vec![a, d]);
    assert!(snapshot_node(&graph, a).is_some());
    assert_eq!(snapshot_scope(&graph, a), Some(&1));
    assert_eq!(snapshot_outgoing(&graph, a, &'d'), vec![d]);
    assert_eq!(snapshot_declarations(&graph, a, &'d'), vec![d]);
}

#[test]
fn rendering_names_a_node_and_its_payload() {
    let place = Scope { id: 4 };
    let render = place.render::<Names>(ScopeNode::Scope(8));
    assert_eq!(render.node, place);
    assert!(matches!(render.payload, Some(ScopeNode::Scope(8))));
    assert!(place.patch::<Names>().payload.is_none());
}

/// Two scopes, one inside the other, each with a declaration.
fn nested() -> (ScopeGraph<Names>, Scope, Scope) {
    let mut graph: ScopeGraph<Names> = ScopeGraph::new();
    let outer = scope(&mut graph, 1);
    let inner = scope(&mut graph, 2);
    edge(&mut graph, inner, 'p', outer);
    declare(&mut graph, outer, 'd', 10);
    declare(&mut graph, inner, 'd', 20);
    (graph, outer, inner)
}

#[test]
fn resolution_follows_the_path() {
    let (graph, outer, inner) = nested();
    let found = resolve(&graph, inner, ScopePath::new(PathExpr::zero_or_more('p')), any_node);
    let mut data: Vec<u64> = found.iter().map(|answer| *answer.data()).collect();
    data.sort();
    assert_eq!(data, vec![1, 2]);
    let found = resolve(&graph, inner, ScopePath::new(PathExpr::label('p')), any_node);
    assert_eq!(found.len(), 1);
    assert_eq!(found[0].scopes, vec![inner, outer]);
    assert_eq!(found[0].labels, vec!['p']);
    assert_eq!(found[0].target_scope(), outer);
    // Only scopes answer, and only those that are taken.
    let declared = ScopePath::new(PathExpr::label('d'));
    assert!(resolve(&graph, inner, declared, is_declaration).is_empty());
    let refused = ScopePath::new(PathExpr::zero_or_more('p'));
    assert!(resolve(&graph, inner, refused, is_declaration).is_empty());
}

#[test]
fn resolution_ends_on_a_cycle() {
    let mut graph: ScopeGraph<Names> = ScopeGraph::new();
    let a = scope(&mut graph, 1);
    let b = scope(&mut graph, 2);
    edge(&mut graph, a, 'p', b);
    edge(&mut graph, b, 'p', a);
    let found = resolve(&graph, a, ScopePath::new(PathExpr::zero_or_more('p')), any_node);
    let mut data: Vec<u64> = found.iter().map(|answer| *answer.data()).collect();
    data.sort();
    assert_eq!(data, vec![1, 2]);
}

#[test]
fn resolution_from_a_missing_scope_finds_nothing() {
    let graph: ScopeGraph<Names> = ScopeGraph::new();
    let found = resolve(&graph, Scope { id: 3 }, ScopePath::new(PathExpr::Epsilon), any_node);
    assert!(found.is_empty());
}

fn along(labels: &[char], data: u64) -> ResolutionPath<Names> {
    let mut scopes = vec![Scope { id: 0 }];
    for i in 0..labels.len() {
        scopes.push(Scope { id: i as u64 + 1 });
    }
    ResolutionPath { scopes, labels: labels.to_vec(), data }
}

#[test]
fn preferences_are_transitive() {
    let order = PathOrder::new().prefer('a', 'b').prefer('b', 'c');
    let first = along(&['a'], 1);
    let last = along(&['c'], 2);
    assert_eq!(order.compare(&first, &last), Some(Ordering::Greater));
    assert_eq!(order.compare(&last, &first), Some(Ordering::Less));
}

#[test]
fn a_preference_is_not_turned_round() {
    let order = PathOrder::new().prefer('a', 'b').prefer('b', 'c').prefer('c', 'a');
    let first = along(&['a'], 1);
    let last = along(&['c'], 2);
    assert_eq!(order.compare(&first, &last), Some(Ordering::Greater));
    assert_eq!(order.compare(&last, &first), Some(Ordering::Less));
}

#[test]
fn a_shorter_path_is_preferred_and_unrelated_labels_are_not_compared() {
    let order: PathOrder<char> = PathOrder::default();
    let a = along(&['a'], 1);
    let b = along(&['b'], 2);
    assert_eq!(order.compare(&a, &b), None);
    assert_eq!(order.compare(&a, &along(&['a'], 1)), Some(Ordering::Equal));
    assert_eq!(order.compare(&a, &along(&['a', 'b'], 3)), Some(Ordering::Greater));
}

#[test]
fn what_is_hidden_is_listed_with_what_hides_it() {
    let order = PathOrder::new().prefer('d', 'p');
    let near = along(&['d'], 20);
    let far = along(&['p', 'd'], 10);
    let (visible, hidden) = partition_visible(&vec![far, near], &order);
    assert_eq!(visible.len(), 1);
    assert_eq!(visible[0].data, 20);
    assert_eq!(hidden.len(), 1);
    assert_eq!(hidden[0].0.data, 10);
    assert_eq!(hidden[0].1.len(), 1);
    assert_eq!(hidden[0].1[0].data, 20);
}

#[test]
fn answers_give_their_data_away() {
    let answer = along(&['a'], 5);
    let copy = answer.copied();
    assert_eq!(copy.scopes, answer.scopes);
    assert_eq!(answer.into_data(), 5);
}

#[test]
fn lists_are_copied_and_compared() {
    let list: Vec<u64> = vec![1, 2, 3];
    let copy = copy_list(&list);
    assert!(same_list(&list, &copy));
    assert!(!same_list(&list, &vec![1, 2]));
    assert!(!same_list(&list, &vec![1, 2, 4]));
    assert!(1u64.same(&1));
    assert!(!'a'.same(&'b'));
}
