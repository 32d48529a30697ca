//! Edits of open documents, structural artifacts, rules, and runs of them.

use std::sync::Arc;

use plingo::component::semantic::context::{
    Attempt, ElaboratorCx, ParseCandidate, RunRefusal, ScopeProperty,
};
use plingo::component::semantic::node::{ElaboratorNode, ElaboratorRules, RunError};
use plingo::component::semantic::rules::{rules, Given, RuleBuildError, RuleHandler, Rules};
use plingo::component::semantic::task::{
    AstKey, AstWalk, AstWalkField, Child, Elaboration, ElaboratorDiagnostic, ElaboratorError, ElaboratorRole,
    ElaboratorTask, FrameworkDiagnostic, NoDiagnostic, ScopeAccess, ScopeMisuse,
};
use plingo::component::source::{
    split_piece_at, ApplySourceEdit, ApplySourceEdits, EditRefusal, LoadSource, LoadSourceText,
    Piece, SourceInput, SplitRefusal,
};
use plingo::component::structural::{
    edges, entries, ChildRef, StructuralArtifact, StructuralEdge, StructuralView, StructureEntry,
};
use plingo::component::workspace::Document;
use plingo::framework::scope::graph::{Scope, ScopeDomain};
use plingo::framework::scope::path::Datum;
use plingo::framework::source::SourceEdit;
use plingo::utils::{ByteRange, Span};

const URI: &str = "file:///a";

fn insert(at: usize, value: &str) -> SourceEdit {
    SourceEdit::Insert {
        key: Span::new_uri(URI.to_string(), at, at).unwrap(),
        value: value.to_string(),
    }
}

fn delete(start: usize, end: usize) -> SourceEdit {
    SourceEdit::Delete { key: Span::new_uri(URI.to_string(), start, end).unwrap() }
}

#[test]
fn an_edit_gives_the_text_and_the_splice() {
    let change = ApplySourceEdit { edit: insert(5, ", you") }
        .apply(Some("hello world"))
        .unwrap()
        .unwrap();
    assert_eq!(change.uri, URI);
    assert_eq!(change.text, "hello, you world");
    assert_eq!(change.delta.splices.len(), 1);
    let splice = &change.delta.splices[0];
    assert_eq!(splice.old_range, 5..5);
    assert_eq!(splice.new_range, 5..10);
    assert_eq!(splice.removed, "");
    assert_eq!(splice.inserted, ", you");
}

#[test]
fn edits_are_applied_one_after_the_other() {
    let edits = ApplySourceEdits { edits: vec![delete(0, 6), insert(5, "!")] };
    let change = edits.apply(Some("hello world")).unwrap().unwrap();
    assert_eq!(change.text, "world!");
    assert_eq!(change.delta.splices.len(), 2);
    assert_eq!(change.delta.splices[0].removed, "hello ");
    assert_eq!(change.delta.splices[0].old_range, 0..6);
    assert_eq!(change.delta.splices[1].old_range, 11..11);
    assert_eq!(change.delta.splices[1].new_range, 5..6);
}

#[test]
fn what_is_inserted_and_deleted_again_changes_nothing() {
    let edits = ApplySourceEdits { edits: vec![insert(2, "xy"), delete(2, 4)] };
    let change = edits.apply(Some("abcd")).unwrap();
    match change {
        None => {},
        Some(change) => {
            assert_eq!(change.text, "abcd");
            assert_eq!(change.delta.splices.len(), 0);
        },
    }
}

#[test]
fn edits_off_the_text_are_refused() {
    assert_eq!(
        ApplySourceEdit { edit: insert(9, "x") }.apply(Some("abc")).unwrap_err(),
        EditRefusal::PastEnd { offset: 9, length: 3 },
    );
    assert!(matches!(
        ApplySourceEdit { edit: insert(1, "x") }.apply(Some("\u{e9}a")),
        Err(EditRefusal::OffBoundary { .. }),
    ));
    let mixed = ApplySourceEdits {
        edits: vec![
            insert(0, "x"),
            SourceEdit::Insert {
                key: Span::new_uri("file:///b".to_string(), 0, 0).unwrap(),
                value: "y".to_string(),
            },
        ],
    };
    assert!(matches!(mixed.apply(None), Err(EditRefusal::MixedDocuments)));
    assert!(matches!(ApplySourceEdits { edits: vec![] }.apply(Some("a")), Ok(None)));
}

#[test]
fn a_document_takes_edits_of_its_own_only() {
    let document = Document::open(URI.to_string());
    assert_eq!(document.uri(), URI);
    let change = document.apply(Some("ab"), insert(1, "-")).unwrap().unwrap();
    assert_eq!(change.text, "a-b");
    let other = SourceEdit::Delete {
        key: Span::new_uri("file:///b".to_string(), 0, 1).unwrap(),
    };
    assert!(matches!(document.apply(Some("ab"), other), Err(EditRefusal::OtherDocument)));
}

#[test]
fn loading_keeps_a_document_that_is_there() {
    let load = LoadSource { uri: URI.to_string() };
    assert!(load.apply(Some("text")).is_none());
    let change = LoadSource { uri: URI.to_string() }.apply(None).unwrap();
    assert_eq!(change.text, "");
    let change = LoadSourceText { uri: URI.to_string(), text: "hi".to_string() }
        .apply(None)
        .unwrap();
    assert_eq!(change.text, "hi");
    let kept = LoadSourceText { uri: URI.to_string(), text: "hi".to_string() };
    assert!(kept.apply(Some("there")).is_none());
}

#[test]
fn commands_are_built_from_their_parts() {
    assert_eq!(SourceInput::apply_all(vec![delete(0, 1)]).edits.len(), 1);
    assert_eq!(SourceInput::apply(delete(0, 1)).edit, delete(0, 1));
    assert_eq!(SourceInput::load(URI.to_string()).uri, URI);
    assert_eq!(SourceInput::load_text(URI.to_string(), "t".to_string()).text, "t");
}

#[test]
fn an_artifact_gives_its_payload_by_type() {
    let artifact: StructuralArtifact<u64, (), u64> = StructuralArtifact::new(1, 7, 42);
    assert!(artifact.is(7));
    assert!(!artifact.is(8));
    assert_eq!(*artifact.deref(7).unwrap(), 42);
    assert!(artifact.deref(8).is_none());
    assert!(artifact.same(&artifact.copied()));
    let other: StructuralArtifact<u64, (), u64> = StructuralArtifact::new(1, 7, 43);
    assert!(!artifact.same(&other));
    let marked = StructuralArtifact::with_metadata(1u64, 5u64, 7, 42u64);
    assert_eq!(marked.metadata, 5);
    let erased = StructuralArtifact::from_erased(1u64, 5u64, 7, Arc::new(42u64));
    assert_eq!(erased.key, 1);
}

#[test]
fn edges_and_entries_are_found_by_source_and_entry() {
    let list = vec![
        StructuralEdge { source: 1u64, label: 'a', target: 2u64 },
        StructuralEdge { source: 3, label: 'a', target: 2 },
        StructuralEdge { source: 1, label: 'b', target: 4 },
    ];
    let found = edges(&list, &1);
    assert_eq!(found.len(), 2);
    assert_eq!(found[0].target(), 2);
    assert_eq!(found[1].source(), 1);
    let roots = vec![
        StructureEntry::new('r', 1u64, ()),
        StructureEntry::new('s', 2u64, ()),
    ];
    let found = entries(&roots, &'s');
    assert_eq!(found.len(), 1);
    assert_eq!(found[0].node, 2);
    let child = ChildRef { slot: 0, target: 3u64 };
    assert!(child.same(&child.copied()));
}

#[test]
fn rules_need_one_root_and_a_fallback() {
    assert!(matches!(rules::<u8>().otherwise(1).build(), Err(RuleBuildError::MissingRoot)));
    assert!(matches!(rules::<u8>().root(1).build(), Err(RuleBuildError::MissingFallback)));
    assert!(matches!(
        rules::<u8>().root(1).root(2).otherwise(3).build(),
        Err(RuleBuildError::DuplicateRoot),
    ));
    assert!(rules::<u8>().root(1).case(5, 2).case(6, 3).otherwise(9).build().is_ok());
}

struct Names;

impl ScopeDomain for Names {
    type ScopeData = u64;
    type Label = char;
    type Request = u64;
}

struct Role;

impl ElaboratorRole for Role {
    type Domain = Names;
    type Ast = u64;
    type Input = u64;
    type Output = u64;
    type Diagnostic = NoDiagnostic;
}

fn key(id: u64) -> AstKey {
    AstKey { document: 1, id }
}

fn candidate(product: usize) -> ParseCandidate<u64> {
    ParseCandidate { product, node: key(product as u64), value: Arc::new(product as u64 * 10) }
}

const MISUSES: [ScopeMisuse; 8] = [
    ScopeMisuse::CannotDeclare,
    ScopeMisuse::DeclaredTwice,
    ScopeMisuse::RootAttachedTwice,
    ScopeMisuse::CannotLink,
    ScopeMisuse::SelfReferential,
    ScopeMisuse::NotDeclaredHere,
    ScopeMisuse::ClosedTwice,
    ScopeMisuse::NoIdentity,
];

fn misuse<T>(result: Result<T, ElaboratorError<NoDiagnostic>>) -> ScopeMisuse {
    match result {
        Err(ElaboratorError::Framework(FrameworkDiagnostic::Message(text))) => {
            *MISUSES.iter().find(|misuse| misuse.message() == text).unwrap()
        }
        _ => panic!("the call is a misuse"),
    }
}

fn framework<T>(result: Result<T, ElaboratorError<NoDiagnostic>>) -> FrameworkDiagnostic {
    match result {
        Err(ElaboratorError::Framework(diagnostic)) => diagnostic,
        _ => panic!("the framework refuses"),
    }
}

#[test]
fn an_interpretation_is_chosen_once() {
    let mut cx: ElaboratorCx<Role> =
        ElaboratorCx::root(ScopeAccess::Build, vec![candidate(1), candidate(2)], 0);
    assert!(cx.is_root());
    assert_eq!(*cx.input(), 0);
    assert_eq!(cx.interpretations().len(), 2);
    assert_eq!(
        framework(cx.choose_unique_interpretation()),
        FrameworkDiagnostic::AmbiguousInterpretation(2),
    );
    assert_eq!(
        framework(cx.choose_interpretation(7)),
        FrameworkDiagnostic::UnknownInterpretation(7),
    );
    assert_eq!(*cx.choose_interpretation(2).ok().unwrap(), 20);
    assert_eq!(cx.ast_key(), key(2));
    assert_eq!(
        framework(cx.choose_interpretation(1)),
        FrameworkDiagnostic::InterpretationAlreadyChosen,
    );
}

#[test]
fn without_an_interpretation_there_is_none_to_choose() {
    let mut cx: ElaboratorCx<Role> = ElaboratorCx::root(ScopeAccess::Build, vec![], 0);
    assert_eq!(
        framework(cx.choose_unique_interpretation()),
        FrameworkDiagnostic::MissingInterpretation,
    );
    assert!(matches!(
        cx.finish_root(Elaboration::complete(1)),
        Err(RunRefusal::InterpretationNotSelected),
    ));
}

struct Picky;

impl Attempt<Role, u64, &'static str> for Picky {
    fn run(&self, cx: &mut ElaboratorCx<Role>, ast: &u64) -> Result<u64, &'static str> {
        cx.require_source(*ast);
        if *ast == 20 {
            Ok(*ast)
        } else {
            Err("no")
        }
    }
}

#[test]
fn a_rejected_attempt_leaves_nothing_behind() {
    let mut cx: ElaboratorCx<Role> =
        ElaboratorCx::root(ScopeAccess::Build, vec![candidate(1), candidate(2)], 0);
    assert_eq!(cx.try_interpretations(&vec![1, 2], &Picky).ok(), Some(20));
    assert_eq!(cx.ast_key(), key(2));
    let _ = cx.attach_root(Some(Scope { id: 0 }));
    let publication = cx.finish_root(Elaboration::complete(3)).ok().unwrap().unwrap();
    assert_eq!(publication.requests, vec![20]);

    let mut cx: ElaboratorCx<Role> =
        ElaboratorCx::root(ScopeAccess::Build, vec![candidate(1)], 0);
    match cx.try_interpretations(&vec![1], &Picky) {
        Err(ElaboratorError::Framework(FrameworkDiagnostic::Message(text))) => assert_eq!(
            text,
            "every requested interpretation was rejected: product 1: no",
        ),
        _ => panic!("the attempt is rejected"),
    }
    assert_eq!(
        framework(cx.try_interpretations(&vec![], &Picky)),
        FrameworkDiagnostic::MissingInterpretation,
    );
}

#[test]
fn the_message_names_every_rejected_product() {
    let mut cx: ElaboratorCx<Role> = ElaboratorCx::root(
        ScopeAccess::Build,
        vec![candidate(1), candidate(30), candidate(1205)],
        0,
    );
    assert_eq!(
        framework(cx.try_interpretations(&vec![1205, 1, 30], &Picky)),
        FrameworkDiagnostic::Message(
            "every requested interpretation was rejected: product 1205: no; product 1: no; \
             product 30: no"
                .to_string(),
        ),
    );
    assert_eq!(
        framework(cx.try_interpretations(&vec![1, 9], &Picky)),
        FrameworkDiagnostic::UnknownInterpretation(9),
    );
}

struct Waiting;

impl Attempt<Role, u64, &'static str> for Waiting {
    fn run(&self, cx: &mut ElaboratorCx<Role>, ast: &u64) -> Result<u64, &'static str> {
        if *ast == 10 {
            cx.require_source(7);
            let _ = cx.observe(None);
            Err("later")
        } else {
            Ok(*ast)
        }
    }
}

#[test]
fn what_a_rejected_attempt_waits_for_is_still_awaited() {
    let mut cx: ElaboratorCx<Role> =
        ElaboratorCx::root(ScopeAccess::Build, vec![candidate(1), candidate(2)], 0);
    assert_eq!(cx.try_interpretations(&vec![1, 2], &Waiting).ok(), Some(20));
    let _ = cx.attach_root(Some(Scope { id: 0 }));
    let publication = cx.finish_root(Elaboration::complete(3)).ok().unwrap().unwrap();
    assert!(publication.requests.is_empty());
    assert!(matches!(publication.output, Elaboration::Awaiting));
}

#[test]
fn a_rule_reports_in_words_of_its_own() {
    let task = ElaboratorTask::new(key(1), Scope { id: 3 }, 0);
    let mut cx: ElaboratorCx<Role> =
        ElaboratorCx::task(ScopeAccess::Build, task, Some(candidate(1)));
    cx.report_framework(FrameworkDiagnostic::Message("no such field".to_string()));
    let task = ElaboratorTask::new(key(1), Scope { id: 3 }, 0);
    let publication = cx.publish(task, Elaboration::complete(1)).ok().unwrap();
    match &publication.diagnostics[0] {
        ElaboratorDiagnostic::Framework(diagnostic) => assert_eq!(
            diagnostic.copied(),
            FrameworkDiagnostic::Message("no such field".to_string()),
        ),
        _ => panic!("the framework reports"),
    }
}

#[test]
fn a_root_is_refused_before_an_interpretation_is_chosen() {
    let mut cx: ElaboratorCx<Role> = ElaboratorCx::root(ScopeAccess::Query, vec![], 0);
    assert_eq!(misuse(cx.declare_root(Some(Scope { id: 1 }), 1)), ScopeMisuse::CannotDeclare);
    assert_eq!(misuse(cx.attach_root(None)), ScopeMisuse::NoIdentity);
}

#[test]
fn scopes_are_declared_linked_and_closed() {
    let mut cx: ElaboratorCx<Role> =
        ElaboratorCx::root(ScopeAccess::Build, vec![candidate(1)], 0);
    let _ = cx.choose_unique_interpretation();
    let root = Scope { id: 5 };
    let inner = Scope { id: 6 };
    assert_eq!(misuse(cx.declare(None, 1)), ScopeMisuse::NoIdentity);
    assert_eq!(cx.declare_root(Some(root), 1).ok(), Some(root));
    assert_eq!(cx.incoming_scope(), root);
    assert_eq!(misuse(cx.declare_root(Some(inner), 1)), ScopeMisuse::RootAttachedTwice);
    assert_eq!(misuse(cx.declare(Some(root), 1)), ScopeMisuse::DeclaredTwice);
    assert_eq!(cx.declare(Some(inner), 2).ok(), Some(inner));
    assert!(cx.edge(inner, 'p', root, ScopeProperty::Acyclic).is_ok());
    assert_eq!(
        misuse(cx.edge(inner, 'p', inner, ScopeProperty::Acyclic)),
        ScopeMisuse::SelfReferential,
    );
    assert!(cx.edge(inner, 'p', inner, ScopeProperty::Cyclic).is_ok());
    assert_eq!(misuse(cx.seal(Scope { id: 9 })), ScopeMisuse::NotDeclaredHere);
    assert!(cx.seal(root).is_ok());
    assert_eq!(misuse(cx.seal(root)), ScopeMisuse::ClosedTwice);
    assert!(cx.seal(inner).is_ok());
    let publication = cx.finish_root(Elaboration::complete(8)).ok().unwrap().unwrap();
    assert_eq!(publication.data.len(), 2);
    assert_eq!(publication.edges.len(), 2);
    assert_eq!(publication.lifecycles, vec![root, inner]);
    assert!(matches!(publication.output, Elaboration::Complete(8)));
}

#[test]
fn an_open_scope_is_not_published() {
    let mut cx: ElaboratorCx<Role> =
        ElaboratorCx::root(ScopeAccess::Build, vec![candidate(1)], 0);
    let _ = cx.choose_unique_interpretation();
    let _ = cx.declare_root(Some(Scope { id: 5 }), 1);
    assert!(matches!(
        cx.finish_root(Elaboration::complete(8)),
        Err(RunRefusal::UnsealedScope),
    ));
}

#[test]
fn a_query_neither_declares_nor_links() {
    let task = ElaboratorTask::new(key(1), Scope { id: 3 }, 0);
    let mut cx: ElaboratorCx<Role> =
        ElaboratorCx::task(ScopeAccess::Query, task, Some(candidate(1)));
    assert_eq!(misuse(cx.declare(Some(Scope { id: 4 }), 1)), ScopeMisuse::CannotDeclare);
    assert_eq!(
        misuse(cx.edge(Scope { id: 3 }, 'p', Scope { id: 4 }, ScopeProperty::Acyclic)),
        ScopeMisuse::CannotLink,
    );
    assert_eq!(ScopeMisuse::CannotLink.message().is_empty(), false);
}

#[test]
fn attaching_twice_to_one_scope_is_no_harm() {
    let mut cx: ElaboratorCx<Role> =
        ElaboratorCx::root(ScopeAccess::Extend, vec![candidate(1)], 0);
    let _ = cx.choose_unique_interpretation();
    let root = Scope { id: 2 };
    assert_eq!(cx.attach_root(Some(root)).ok(), Some(root));
    assert_eq!(cx.attach_root(Some(root)).ok(), Some(root));
    assert_eq!(misuse(cx.attach_root(Some(Scope { id: 3 }))), ScopeMisuse::RootAttachedTwice);
    assert_eq!(misuse(cx.attach_root(None)), ScopeMisuse::NoIdentity);
    assert_eq!(cx.find_scope(&vec![root]), Some(root));
    assert_eq!(cx.find_scope(&vec![]), None);
}

#[test]
fn tasks_are_scheduled_once_and_awaited() {
    let task = ElaboratorTask::new(key(1), Scope { id: 3 }, 0);
    let mut cx: ElaboratorCx<Role> =
        ElaboratorCx::task(ScopeAccess::Build, task, Some(candidate(1)));
    let below = vec![Some(key(2)), None, Some(key(3)), Some(key(2))];
    let children = cx.schedule_children(&below, Scope { id: 3 }, 4);
    assert_eq!(children.len(), 3);
    assert_eq!(children[2].task().ast, key(2));
    assert_eq!(cx.observe(Some(Elaboration::complete(6))), Some(6));
    assert_eq!(cx.observe(Some(Elaboration::awaiting())), None);
    cx.report(NoDiagnostic);
    cx.report_framework(FrameworkDiagnostic::MissingToken(4));
    let task = ElaboratorTask::new(key(1), Scope { id: 3 }, 0);
    let publication = cx.publish(task, Elaboration::complete(1)).ok().unwrap();
    assert!(matches!(publication.output, Elaboration::Awaiting));
    assert_eq!(publication.deferred.len(), 2);
    assert_eq!(publication.diagnostics.len(), 2);
    assert!(matches!(
        publication.diagnostics[1],
        ElaboratorDiagnostic::Framework(FrameworkDiagnostic::MissingToken(4)),
    ));
}

#[test]
fn reads_that_find_nothing_are_reported() {
    let task = ElaboratorTask::new(key(1), Scope { id: 3 }, 0);
    let cx: ElaboratorCx<Role> =
        ElaboratorCx::task(ScopeAccess::Build, task, Some(candidate(1)));
    assert_eq!(framework(cx.span(key(5), None)), FrameworkDiagnostic::MissingAst(key(5)));
    assert_eq!(framework(cx.text(7, None)), FrameworkDiagnostic::MissingToken(7));
    assert_eq!(cx.text(7, Some("x".to_string())).ok().unwrap(), "x");
    let range = ByteRange { start: 1, end: 2 };
    assert_eq!(cx.span(key(5), Some(range)).ok(), Some(range));
    let artifact: StructuralArtifact<u64, (), u64> = StructuralArtifact::new(1, 7, 42);
    assert_eq!(*cx.ast(key(1), Some(&artifact), 7).ok().unwrap(), 42);
    assert_eq!(
        framework(cx.ast(key(1), Some(&artifact), 8)),
        FrameworkDiagnostic::MissingAst(key(1)),
    );
    assert!(matches!(cx.current_ast(Some(&artifact), 8), Ok(None)));
    assert_eq!(cx.current_artifact(Some(&artifact)).ok().unwrap().key, 1);
}

#[test]
fn children_are_walked_from_left_to_right() {
    let mut seen = Vec::new();
    let boxed = Box::new(vec![key(2), key(1)]);
    boxed.ast_children(&mut seen);
    Some(key(3)).ast_children(&mut seen);
    assert_eq!(seen, vec![key(2), key(1), key(3)]);
}

/// Takes the interpretation there is, declares the root, and defers nothing.
struct First;

impl ElaboratorRules<Role> for First {
    fn run(
        &self,
        cx: &mut ElaboratorCx<Role>,
    ) -> Result<Elaboration<u64>, ElaboratorError<NoDiagnostic>> {
        if !cx.is_root() {
            return Ok(Elaboration::complete(*cx.input() + 1));
        }
        let value = *cx.choose_unique_interpretation()?;
        cx.attach_root(Some(Scope { id: 5 }))?;
        Ok(Elaboration::complete(value))
    }
}

#[test]
fn the_rules_run_over_the_root_of_a_document() {
    let node = ElaboratorNode::new(First);
    assert!(matches!(node.root(ScopeAccess::Build, None, 0), Ok(None)));
    let publication =
        node.root(ScopeAccess::Build, Some(vec![candidate(2)]), 0).ok().unwrap().unwrap();
    assert!(matches!(publication.output, Elaboration::Complete(20)));
    assert_eq!(publication.deferred.len(), 0);
    assert!(matches!(
        node.root(ScopeAccess::Build, Some(vec![candidate(1), candidate(2)]), 0),
        Err(RunError::Rules(ElaboratorError::Framework(
            FrameworkDiagnostic::AmbiguousInterpretation(2),
        ))),
    ));
}

#[test]
fn the_rules_run_over_a_node_that_is_known() {
    let node = ElaboratorNode::new(First);
    let task = || ElaboratorTask::<Role>::new(key(3), Scope { id: 5 }, 41);
    assert!(matches!(node.task(ScopeAccess::Build, task(), false, None), Ok(None)));
    let publication = node
        .task(ScopeAccess::Build, task(), true, Some(candidate(3)))
        .ok()
        .unwrap()
        .unwrap();
    assert!(matches!(publication.output, Elaboration::Complete(42)));
    assert_eq!(publication.task.ast, key(3));
}

#[test]
fn a_run_waits_for_scopes_that_are_open() {
    let mut cx: ElaboratorCx<Role> =
        ElaboratorCx::task(ScopeAccess::Build, ElaboratorTask::new(key(1), Scope { id: 3 }, 0), None);
    assert_eq!(cx.visit_scope(true, true, Some(4)), Some(4));
    assert_eq!(cx.visit_scope(false, false, Some(4)), None);
    let task = ElaboratorTask::new(key(1), Scope { id: 3 }, 0);
    let publication = cx.publish(task, Elaboration::complete(1)).ok().unwrap();
    assert!(matches!(publication.output, Elaboration::Awaiting));
}

/// Adds its number to what it is given.
struct Adds(u64);

impl RuleHandler<Role, u64> for Adds {
    fn handle(
        &self,
        _cx: &mut ElaboratorCx<Role>,
        given: Given<u64, u64>,
    ) -> Result<u64, ElaboratorError<NoDiagnostic>> {
        match given {
            Given::Root(ast) => Ok(self.0 + *ast),
            Given::Node(value) => Ok(self.0 + *value),
            Given::Nothing => Ok(self.0),
        }
    }
}

fn adding() -> Rules<Adds> {
    let set = rules().root(Adds(1000)).case(7, Adds(2000)).case(7, Adds(3000)).otherwise(Adds(9));
    match set.build() {
        Ok(built) => built,
        Err(_) => panic!("the rules are complete"),
    }
}

fn no_artifact() -> Option<&'static StructuralArtifact<u64, (), u64>> {
    None
}

#[test]
fn rules_run_the_handler_of_roots_over_the_only_interpretation() {
    let built = adding();
    let mut cx: ElaboratorCx<Role> =
        ElaboratorCx::root(ScopeAccess::Build, vec![candidate(4)], 0);
    assert!(matches!(built.run(&mut cx, no_artifact()), Ok(Elaboration::Complete(1040))));
    let mut none: ElaboratorCx<Role> = ElaboratorCx::root(ScopeAccess::Build, vec![], 0);
    assert_eq!(
        framework(built.run(&mut none, no_artifact())),
        FrameworkDiagnostic::MissingInterpretation,
    );
    let mut two: ElaboratorCx<Role> =
        ElaboratorCx::root(ScopeAccess::Build, vec![candidate(1), candidate(2)], 0);
    assert_eq!(
        framework(built.run(&mut two, no_artifact())),
        FrameworkDiagnostic::AmbiguousInterpretation(2),
    );
}

#[test]
fn rules_run_the_first_handler_of_the_type_of_a_node() {
    let built = adding();
    let task = ElaboratorTask::new(key(1), Scope { id: 3 }, 0);
    let mut cx: ElaboratorCx<Role> = ElaboratorCx::task(ScopeAccess::Build, task, None);
    let known: StructuralArtifact<u64, (), u64> = StructuralArtifact::new(1, 7, 42);
    assert!(matches!(built.run(&mut cx, Some(&known)), Ok(Elaboration::Complete(2042))));
    let other: StructuralArtifact<u64, (), u64> = StructuralArtifact::new(1, 8, 42);
    assert!(matches!(built.run(&mut cx, Some(&other)), Ok(Elaboration::Complete(9))));
    match built.dispatch(&mut cx, Some(&other)) {
        Ok(found) => {
            assert_eq!(found.handler.0, 9);
            assert!(matches!(found.given, Given::Nothing));
        },
        Err(_) => panic!("there is a fallback"),
    }
    assert_eq!(
        framework(built.run(&mut cx, no_artifact())),
        FrameworkDiagnostic::MissingAst(key(1)),
    );
}

struct Pair(AstKey, AstKey);

impl AstWalk for Pair {
    fn direct_children(&self, visited: &mut Vec<AstKey>) {
        visited.push(self.0);
        visited.push(self.1);
    }
}

#[test]
fn children_of_a_node_are_scheduled_in_order() {
    let task = ElaboratorTask::new(key(1), Scope { id: 3 }, 0);
    let mut cx: ElaboratorCx<Role> = ElaboratorCx::task(ScopeAccess::Build, task, None);
    let children = cx.schedule_children(&Pair(key(5), key(4)), Scope { id: 8 }, 6);
    let nodes: Vec<AstKey> = children.iter().map(|child| child.task.ast).collect();
    assert_eq!(nodes, vec![key(5), key(4)]);
}

#[test]
fn data_and_diagnostics_are_found_by_their_keys() {
    let task = ElaboratorTask::new(key(1), Scope { id: 3 }, 0);
    let cx: ElaboratorCx<Role> = ElaboratorCx::task(ScopeAccess::Build, task, None);
    let out = vec![(Scope { id: 1 }, 10u64), (Scope { id: 2 }, 20), (Scope { id: 2 }, 30)];
    assert_eq!(cx.data(Scope { id: 2 }, &out), Some(20));
    assert_eq!(cx.data(Scope { id: 4 }, &out), None);
    let child: Child<Role> = Child { task: ElaboratorTask::new(key(5), Scope { id: 3 }, 0) };
    let said = vec![(
        ElaboratorTask::<Role>::new(key(5), Scope { id: 3 }, 0),
        vec![ElaboratorDiagnostic::Framework(FrameworkDiagnostic::MissingInterpretation)],
    )];
    assert_eq!(cx.child_diagnostics(&child, &said).map(|list| list.len()), Some(1));
    let stranger: Child<Role> = Child { task: ElaboratorTask::new(key(6), Scope { id: 3 }, 0) };
    assert!(cx.child_diagnostics(&stranger, &said).is_none());
}

#[test]
fn a_view_reads_the_facts_of_a_structure() {
    let nodes: Vec<StructuralArtifact<u64, (), u64>> =
        vec![StructuralArtifact::new(1, 7, 42), StructuralArtifact::new(2, 8, 43)];
    let children = vec![(1u64, vec![ChildRef { slot: 0, target: 2u64 }])];
    let links = vec![StructuralEdge { source: 1u64, label: 5u64, target: 2u64 }];
    let view = StructuralView { nodes: &nodes, children: &children, edges: &links };
    assert_eq!(view.artifact(&2, 8).map(|value| *value), Some(43));
    assert!(view.artifact(&2, 7).is_none());
    assert!(view.artifact(&3, 7).is_none());
    assert_eq!(view.children(&1).unwrap()[0].target, 2);
    assert!(view.children(&2).is_none());
    assert_eq!(view.edges(&1).len(), 1);
    assert_eq!(view.edges(&2).len(), 0);
    let found = vec![StructureEntry::new(9u64, 1u64, 0u64)];
    assert_eq!(view.entries(&found, &9)[0].node, 1);
    assert_eq!(view.entries(&found, &8).len(), 0);
}

#[test]
fn pieces_are_cut_where_characters_end() {
    let start = || vec![
        Piece::Original { start: 4, end: 9 },
        Piece::Inserted("a\u{e9}".to_string()),
    ];
    let mut pieces = start();
    assert_eq!(split_piece_at(&mut pieces, 2), Ok(1));
    assert_eq!(pieces.len(), 3);
    assert!(matches!(pieces[0], Piece::Original { start: 4, end: 6 }));
    assert!(matches!(pieces[1], Piece::Original { start: 6, end: 9 }));
    let mut pieces = start();
    assert_eq!(split_piece_at(&mut pieces, 5), Ok(1));
    assert_eq!(split_piece_at(&mut pieces, 8), Ok(2));
    assert_eq!(pieces.len(), 2);
    assert_eq!(split_piece_at(&mut pieces, 7), Err(SplitRefusal::InsideCharacter));
    assert_eq!(split_piece_at(&mut pieces, 9), Err(SplitRefusal::PastEnd));
    assert_eq!(pieces.len(), 2);
    assert_eq!(split_piece_at(&mut pieces, 6), Ok(2));
    assert!(matches!(&pieces[2], Piece::Inserted(text) if text == "\u{e9}"));
}
