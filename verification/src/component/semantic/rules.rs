//! The rules of one elaborator: a handler for roots, handlers for node types,
//! and a fallback.

use std::sync::Arc;

use vstd::prelude::*;

use crate::component::semantic::context::{with_choice, ContextView, ElaboratorCx};
use crate::component::semantic::task::{
    Elaboration, ElaboratorError, ElaboratorRole, FrameworkDiagnostic,
};
use crate::component::structural::{ArtifactView, StructuralArtifact};
use crate::framework::scope::path::Datum;

verus! {

/// Why a set of rules is not complete.
#[derive(Clone, Copy, Debug, PartialEq, Eq, Structural)]
pub enum RuleBuildError {
    MissingRoot,
    MissingFallback,
    DuplicateRoot,
}

/// A set of rules in the making. `H` names a handler.
pub struct RuleSet<H> {
    root: Option<H>,
    root_count: usize,
    cases: Vec<(u64, H)>,
    fallback: Option<H>,
}

/// A set of rules as values.
#[verifier::ext_equal]
pub struct RuleSetView<H> {
    pub root: Option<H>,
    pub root_count: nat,
    /// The handlers of node types, in the order in which they are tried.
    pub cases: Seq<(u64, H)>,
    pub fallback: Option<H>,
}

impl<H> View for RuleSet<H> {
    type V = RuleSetView<H>;

    closed spec fn view(&self) -> RuleSetView<H> {
        RuleSetView {
            root: self.root,
            root_count: self.root_count as nat,
            cases: self.cases@,
            fallback: self.fallback,
        }
    }
}

impl<H> RuleSetView<H> {
    /// The handler of roots is there exactly where one was registered.
    pub open spec fn wf(self) -> bool {
        self.root is Some <==> self.root_count > 0
    }
}

/// A set of rules without handlers.
pub fn rules<H>() -> (r: RuleSet<H>)
    ensures
        r@ == (RuleSetView::<H> {
            root: None,
            root_count: 0,
            cases: Seq::empty(),
            fallback: None,
        }),
        r@.wf(),
{
    let r = RuleSet { root: None, root_count: 0, cases: Vec::new(), fallback: None };
    assert(r@ =~= RuleSetView::<H> {
        root: None,
        root_count: 0,
        cases: Seq::empty(),
        fallback: None,
    });
    r
}

/// Complete rules.
pub struct Rules<H> {
    root: H,
    cases: Vec<(u64, H)>,
    fallback: H,
}

/// Complete rules as values.
#[verifier::ext_equal]
pub struct RulesView<H> {
    pub root: H,
    pub cases: Seq<(u64, H)>,
    pub fallback: H,
}

impl<H> View for Rules<H> {
    type V = RulesView<H>;

    closed spec fn view(&self) -> RulesView<H> {
        RulesView { root: self.root, cases: self.cases@, fallback: self.fallback }
    }
}

/// The first handler of a node type at or behind a place, or the fallback.
pub open spec fn case_from<H>(rules: RulesView<H>, type_id: u64, from: int) -> H
    decreases rules.cases.len() - from,
{
    if from < 0 || from >= rules.cases.len() {
        rules.fallback
    } else if rules.cases[from].0 == type_id {
        rules.cases[from].1
    } else {
        case_from(rules, type_id, from + 1)
    }
}

impl<H> RuleSet<H> {
    /// Registers the handler of roots.
    pub fn root(self, handler: H) -> (r: Self)
        requires
            self@.root_count < usize::MAX,
        ensures
            r@ == (RuleSetView {
                root: Some(handler),
                root_count: self@.root_count + 1,
                ..self@
            }),
            r@.wf(),
    {
        RuleSet {
            root: Some(handler),
            root_count: self.root_count + 1,
            cases: self.cases,
            fallback: self.fallback,
        }
    }

    /// Registers the handler of a node type, behind those that are there.
    pub fn case(self, type_id: u64, handler: H) -> (r: Self)
        ensures
            r@ == (RuleSetView { cases: self@.cases.push((type_id, handler)), ..self@ }),
            self@.wf() ==> r@.wf(),
    {
        let mut cases = self.cases;
        cases.push((type_id, handler));
        RuleSet { root: self.root, root_count: self.root_count, cases, fallback: self.fallback }
    }

    /// Registers the fallback, in place of the one before.
    pub fn otherwise(self, handler: H) -> (r: Self)
        ensures
            r@ == (RuleSetView { fallback: Some(handler), ..self@ }),
            self@.wf() ==> r@.wf(),
    {
        RuleSet {
            root: self.root,
            root_count: self.root_count,
            cases: self.cases,
            fallback: Some(handler),
        }
    }

    /// The complete rules. There must be exactly one handler of roots, and a
    /// fallback.
    pub fn build(self) -> (r: Result<Rules<H>, RuleBuildError>)
        requires
            self@.wf(),
        ensures
            match r {
                Ok(rules) => {
                    &&& self@.root_count == 1
                    &&& self@.fallback is Some
                    &&& rules@ == (RulesView {
                        root: self@.root->Some_0,
                        cases: self@.cases,
                        fallback: self@.fallback->Some_0,
                    })
                },
                Err(error) => error == if self@.root_count == 0 {
                    RuleBuildError::MissingRoot
                } else if self@.root_count > 1 {
                    RuleBuildError::DuplicateRoot
                } else {
                    RuleBuildError::MissingFallback
                } && (self@.root_count != 1 || self@.fallback is None),
            },
    {
        if self.root_count == 0 {
            return Err(RuleBuildError::MissingRoot);
        }
        if self.root_count > 1 {
            return Err(RuleBuildError::DuplicateRoot);
        }
        let fallback = match self.fallback {
            Some(handler) => handler,
            None => {
                return Err(RuleBuildError::MissingFallback);
            },
        };
        let root = match self.root {
            Some(handler) => handler,
            None => {
                return Err(RuleBuildError::MissingRoot);
            },
        };
        Ok(Rules { root, cases: self.cases, fallback })
    }
}

/// A node type has a handler of its own.
pub open spec fn has_case<H>(rules: RulesView<H>, type_id: u64) -> bool {
    exists|i: int| 0 <= i < rules.cases.len() && (#[trigger] rules.cases[i]).0 == type_id
}

/// A node is handled by the first handler that was registered for its type,
/// whatever was registered behind it.
pub proof fn lemma_first_case_handles<H>(rules: RulesView<H>, type_id: u64, at: int)
    requires
        0 <= at < rules.cases.len(),
        rules.cases[at].0 == type_id,
        forall|i: int| 0 <= i < at ==> (#[trigger] rules.cases[i]).0 != type_id,
    ensures
        case_from(rules, type_id, 0) == rules.cases[at].1,
        has_case(rules, type_id),
{
    lemma_case_reached(rules, type_id, 0, at);
}

proof fn lemma_case_reached<H>(rules: RulesView<H>, type_id: u64, from: int, at: int)
    requires
        0 <= from <= at < rules.cases.len(),
        rules.cases[at].0 == type_id,
        forall|i: int| 0 <= i < at ==> (#[trigger] rules.cases[i]).0 != type_id,
    ensures
        case_from(rules, type_id, from) == rules.cases[at].1,
    decreases at - from,
{
    if from < at {
        assert(rules.cases[from].0 != type_id);
        lemma_case_reached(rules, type_id, from + 1, at);
    }
}

/// A node of a type that no handler was registered for is handled by the
/// fallback.
pub proof fn lemma_fallback_handles<H>(rules: RulesView<H>, type_id: u64)
    requires
        forall|i: int| 0 <= i < rules.cases.len() ==> (#[trigger] rules.cases[i]).0 != type_id,
    ensures
        case_from(rules, type_id, 0) == rules.fallback,
        !has_case(rules, type_id),
{
    lemma_no_case(rules, type_id, 0);
}

proof fn lemma_no_case<H>(rules: RulesView<H>, type_id: u64, from: int)
    requires
        0 <= from <= rules.cases.len(),
        forall|i: int| 0 <= i < rules.cases.len() ==> (#[trigger] rules.cases[i]).0 != type_id,
    ensures
        case_from(rules, type_id, from) == rules.fallback,
    decreases rules.cases.len() - from,
{
    if from < rules.cases.len() {
        assert(rules.cases[from].0 != type_id);
        lemma_no_case(rules, type_id, from + 1);
    }
}

/// What a handler is given: the interpretation of a root, the payload of a node
/// whose type it was registered for, or nothing where it is the fallback.
pub enum Given<A, V> {
    Root(Arc<A>),
    Node(Arc<V>),
    Nothing,
}

/// The handler that is to run, and what it is given.
pub struct Dispatched<'a, H, A, V> {
    pub handler: &'a H,
    pub given: Given<A, V>,
}

/// Which handler runs at a root: the handler of roots, given the only
/// interpretation.
pub open spec fn dispatched_root<R: ElaboratorRole, H, V>(
    rules: RulesView<H>,
    v: ContextView<R>,
    w: ContextView<R>,
    r: Result<Dispatched<'_, H, R::Ast, V>, ElaboratorError<R::Diagnostic>>,
) -> bool {
    let list = v.interpretations;
    match r {
        Ok(found) => {
            &&& list.len() == 1
            &&& v.node is Some ==> v.node == Some(list[0].node)
            &&& *found.handler == rules.root
            &&& found.given == Given::<R::Ast, V>::Root(list[0].value)
            &&& w == if v.node is Some {
                v
            } else {
                with_choice(v, list[0].node)
            }
        },
        Err(error) => {
            &&& w == v
            &&& error == ElaboratorError::<R::Diagnostic>::Framework(
                if list.len() == 0 {
                    FrameworkDiagnostic::MissingInterpretation
                } else if list.len() > 1 {
                    FrameworkDiagnostic::AmbiguousInterpretation(list.len() as usize)
                } else {
                    FrameworkDiagnostic::InterpretationAlreadyChosen
                },
            )
            &&& list.len() == 1 ==> v.node is Some && v.node != Some(list[0].node)
        },
    }
}

/// Which handler runs at a node: the first that was registered for its type,
/// given its payload, or the fallback. A node that was not read has none.
pub open spec fn dispatched_node<R: ElaboratorRole, H, K, M, V>(
    rules: RulesView<H>,
    v: ContextView<R>,
    artifact: Option<ArtifactView<K, M, V>>,
    r: Result<Dispatched<'_, H, R::Ast, V>, ElaboratorError<R::Diagnostic>>,
) -> bool {
    match artifact {
        Some(artifact) => {
            &&& r matches Ok(found)
            &&& *found.handler == case_from(rules, artifact.type_id, 0)
            &&& if has_case(rules, artifact.type_id) {
                found.given matches Given::Node(value) && *value == artifact.value
            } else {
                found.given is Nothing
            }
        },
        None => r matches Err(error) && error == ElaboratorError::<R::Diagnostic>::Framework(
            FrameworkDiagnostic::MissingAst(v.node->Some_0),
        ),
    }
}

/// Which handler runs.
pub open spec fn dispatched<R: ElaboratorRole, H, K, M, V>(
    rules: RulesView<H>,
    v: ContextView<R>,
    w: ContextView<R>,
    artifact: Option<ArtifactView<K, M, V>>,
    r: Result<Dispatched<'_, H, R::Ast, V>, ElaboratorError<R::Diagnostic>>,
) -> bool {
    if v.task is None {
        dispatched_root(rules, v, w, r)
    } else {
        w == v && dispatched_node(rules, v, artifact, r)
    }
}

/// An artifact that was read, as values.
pub open spec fn artifact_view<K, M, V>(artifact: Option<&StructuralArtifact<K, M, V>>) -> Option<
    ArtifactView<K, M, V>,
> {
    match artifact {
        Some(artifact) => Some(artifact@),
        None => None,
    }
}

/// What a handler does.
pub trait RuleHandler<R: ElaboratorRole, V> {
    /// What a run may lead to: anything, unless the handler says otherwise.
    open spec fn handles(
        &self,
        before: ContextView<R>,
        given: Given<R::Ast, V>,
        after: ContextView<R>,
        r: Result<R::Output, ElaboratorError<R::Diagnostic>>,
    ) -> bool {
        true
    }

    fn handle(&self, cx: &mut ElaboratorCx<R>, given: Given<R::Ast, V>) -> (r: Result<
        R::Output,
        ElaboratorError<R::Diagnostic>,
    >)
        requires
            old(cx)@.wf(),
        ensures
            final(cx)@.wf(),
            self.handles(old(cx)@, given, final(cx)@, r),
    ;
}

/// What a handler led to, with its result taken as complete.
pub open spec fn handled<R: ElaboratorRole, V, H: RuleHandler<R, V>>(
    handler: H,
    given: Given<R::Ast, V>,
    mid: ContextView<R>,
    w: ContextView<R>,
    r: Result<Elaboration<R::Output>, ElaboratorError<R::Diagnostic>>,
) -> bool {
    match r {
        Ok(Elaboration::Complete(output)) => handler.handles(mid, given, w, Ok(output)),
        Ok(Elaboration::Awaiting) => false,
        Err(error) => handler.handles(mid, given, w, Err(error)),
    }
}

/// What rules led to: the handler that is to run did, or none was found.
pub open spec fn rules_ran<R: ElaboratorRole, K, M, V, H: RuleHandler<R, V>>(
    rules: RulesView<H>,
    v: ContextView<R>,
    mid: ContextView<R>,
    w: ContextView<R>,
    artifact: Option<ArtifactView<K, M, V>>,
    found: Result<Dispatched<'_, H, R::Ast, V>, ElaboratorError<R::Diagnostic>>,
    r: Result<Elaboration<R::Output>, ElaboratorError<R::Diagnostic>>,
) -> bool {
    &&& dispatched(rules, v, mid, artifact, found)
    &&& match found {
        Ok(found) => handled(*found.handler, found.given, mid, w, r),
        Err(error) => w == mid && r
            == Err::<Elaboration<R::Output>, ElaboratorError<R::Diagnostic>>(error),
    }
}

impl<H> Rules<H> {
    /// Finds the handler that runs: at a root the handler of roots, with the
    /// only interpretation; elsewhere the first handler that was registered for
    /// the type of the node that was read, or the fallback.
    pub fn dispatch<'a, R: ElaboratorRole, K, M, V>(
        &'a self,
        cx: &mut ElaboratorCx<R>,
        artifact: Option<&StructuralArtifact<K, M, V>>,
    ) -> (r: Result<Dispatched<'a, H, R::Ast, V>, ElaboratorError<R::Diagnostic>>) where
        K: Datum,
        M: Datum,
        V: Datum,

        requires
            old(cx)@.wf(),
        ensures
            final(cx)@.wf(),
            dispatched(self@, old(cx)@, final(cx)@, artifact_view(artifact), r),
    {
        if cx.is_root() {
            return match cx.choose_unique_interpretation() {
                Ok(ast) => Ok(Dispatched { handler: &self.root, given: Given::Root(ast) }),
                Err(error) => Err(error),
            };
        }
        let current = match cx.current_artifact(artifact) {
            Ok(current) => current,
            Err(error) => {
                return Err(error);
            },
        };
        let mut i: usize = 0;
        while i < self.cases.len()
            invariant
                i <= self.cases@.len(),
                self@.cases == self.cases@,
                *cx == *old(cx),
                old(cx)@.wf(),
                old(cx)@.task is Some,
                forall|j: int|
                    0 <= j < i ==> (#[trigger] self.cases@[j]).0 != current@.type_id,
                case_from(self@, current@.type_id, 0) == case_from(
                    self@,
                    current@.type_id,
                    i as int,
                ),
                artifact_view(artifact) == Some(current@),
            decreases self.cases@.len() - i,
        {
            if let Some(value) = current.deref(self.cases[i].0) {
                assert(has_case(self@, current@.type_id)) by {
                    assert(self@.cases[i as int].0 == current@.type_id);
                }
                return Ok(Dispatched { handler: &self.cases[i].1, given: Given::Node(value) });
            }
            i += 1;
        }
        Ok(Dispatched { handler: &self.fallback, given: Given::Nothing })
    }

    /// Runs the handler that is to run, and takes its result as complete.
    pub fn run<R: ElaboratorRole, K, M, V>(
        &self,
        cx: &mut ElaboratorCx<R>,
        artifact: Option<&StructuralArtifact<K, M, V>>,
    ) -> (r: Result<Elaboration<R::Output>, ElaboratorError<R::Diagnostic>>) where
        H: RuleHandler<R, V>,
        K: Datum,
        M: Datum,
        V: Datum,

        requires
            old(cx)@.wf(),
        ensures
            final(cx)@.wf(),
            exists|
                mid: ContextView<R>,
                found: Result<Dispatched<'_, H, R::Ast, V>, ElaboratorError<R::Diagnostic>>,
            | #[trigger]
                rules_ran(
                    self@,
                    old(cx)@,
                    mid,
                    final(cx)@,
                    artifact_view(artifact),
                    found,
                    r,
                ),
    {
        let ghost v = cx@;
        let found = self.dispatch(cx, artifact);
        let ghost mid = cx@;
        let ghost said = found;
        let r = match found {
            Ok(found) => match found.handler.handle(cx, found.given) {
                Ok(output) => Ok(Elaboration::Complete(output)),
                Err(error) => Err(error),
            },
            Err(error) => Err(error),
        };
        assert(rules_ran(self@, v, mid, cx@, artifact_view(artifact), said, r));
        r
    }
}

} // verus!
