//! What one run of a rule has staged, and what of it is published.

use std::sync::Arc;
use vstd::prelude::*;

use super::super::structural::StructuralArtifact;
use super::task::{
    all_rejected, append_rejection, copy_diagnostics, misused, refuse, rejections, AstKey,
    AstWalk, Child, Elaboration, ElaboratorDiagnostic, ElaboratorError, ElaboratorRole,
    ElaboratorTask, FrameworkDiagnostic, ScopeAccess, ScopeMisuse,
};
use crate::framework::scope::graph::{Scope, ScopeDomain};
use crate::framework::scope::path::{holds, Datum};
use crate::framework::scope::resolve::copy_list;
use crate::utils::ByteRange;

verus! {

/// One interpretation that the parser accepted.
pub struct ParseCandidate<A> {
    pub product: usize,
    pub node: AstKey,
    pub value: Arc<A>,
}

/// Whether an edge may close a cycle.
#[derive(Clone, Copy, Debug, PartialEq, Eq, Hash, Structural)]
pub enum ScopeProperty {
    Acyclic,
    Cyclic,
}

/// An edge between scopes that a rule stages.
pub struct ScopeEdge<D: ScopeDomain> {
    pub source: Scope,
    pub label: D::Label,
    pub target: Scope,
    pub property: ScopeProperty,
}

impl<D: ScopeDomain> Datum for ScopeEdge<D> {
    fn same(&self, other: &Self) -> (r: bool) {
        self.source.same(&other.source) && self.label.same(&other.label) && self.target.same(
            &other.target,
        ) && self.property == other.property
    }

    fn copied(&self) -> (r: Self) {
        ScopeEdge {
            source: self.source,
            label: self.label.copied(),
            target: self.target,
            property: self.property,
        }
    }
}

/// The data that a rule stages for a scope.
pub struct ScopeDatum<D: ScopeDomain> {
    pub scope: Scope,
    pub data: D::ScopeData,
}

impl<D: ScopeDomain> Datum for ScopeDatum<D> {
    fn same(&self, other: &Self) -> (r: bool) {
        self.scope.same(&other.scope) && self.data.same(&other.data)
    }

    fn copied(&self) -> (r: Self) {
        ScopeDatum { scope: self.scope, data: self.data.copied() }
    }
}

/// A run of a rule as values.
#[verifier::ext_equal]
pub struct ContextView<R: ElaboratorRole> {
    pub access: ScopeAccess,
    pub task: Option<ElaboratorTask<R>>,
    pub incoming: Option<Scope>,
    pub input: R::Input,
    /// The node whose interpretation was chosen.
    pub node: Option<AstKey>,
    pub interpretations: Seq<ParseCandidate<R::Ast>>,
    pub data: Seq<ScopeDatum<R::Domain>>,
    pub edges: Seq<ScopeEdge<R::Domain>>,
    /// The scopes that were closed, in that order.
    pub lifecycles: Seq<Scope>,
    pub declared: Seq<Scope>,
    pub requests: Seq<<R::Domain as ScopeDomain>::Request>,
    pub diagnostics: Seq<ElaboratorDiagnostic<R::Diagnostic>>,
    /// The tasks that were scheduled, each once, in that order.
    pub pending: Seq<ElaboratorTask<R>>,
    /// Something that the rule read is not there yet.
    pub awaiting: bool,
}

impl<R: ElaboratorRole> ContextView<R> {
    /// No scope is declared or closed twice, only declared scopes are closed,
    /// and no task is scheduled twice.
    pub open spec fn wf(self) -> bool {
        &&& self.declared.no_duplicates()
        &&& self.lifecycles.no_duplicates()
        &&& forall|i: int|
            0 <= i < self.lifecycles.len() ==> self.declared.contains(
                #[trigger] self.lifecycles[i],
            )
        &&& self.data.len() == self.declared.len()
        &&& forall|i: int|
            0 <= i < self.data.len() ==> (#[trigger] self.data[i]).scope == self.declared[i]
        &&& self.pending.no_duplicates()
        &&& self.incoming is None ==> self.task is None
        &&& self.node is None ==> self.task is None
    }
}

/// The place of the first interpretation of a product.
pub open spec fn place_of_product<A>(list: Seq<ParseCandidate<A>>, product: usize) -> Option<int> {
    if exists|i: int| is_first_of_product(list, product, i) {
        Some(choose|i: int| is_first_of_product(list, product, i))
    } else {
        None
    }
}

pub open spec fn is_first_of_product<A>(
    list: Seq<ParseCandidate<A>>,
    product: usize,
    i: int,
) -> bool {
    &&& 0 <= i < list.len()
    &&& list[i].product == product
    &&& forall|j: int| 0 <= j < i ==> (#[trigger] list[j]).product != product
}

/// The run once a node was chosen.
pub open spec fn with_choice<R: ElaboratorRole>(v: ContextView<R>, node: AstKey) -> ContextView<R> {
    ContextView {
        node: Some(node),
        task: match v.incoming {
            Some(incoming) => Some(ElaboratorTask { ast: node, incoming, input: v.input }),
            None => v.task,
        },
        ..v
    }
}

/// The run once it was attached to a scope.
pub open spec fn with_root<R: ElaboratorRole>(v: ContextView<R>, scope: Scope) -> ContextView<R> {
    ContextView {
        incoming: Some(scope),
        task: Some(ElaboratorTask { ast: v.node->Some_0, incoming: scope, input: v.input }),
        ..v
    }
}

/// The run once a scope was declared.
pub open spec fn with_declared<R: ElaboratorRole>(
    v: ContextView<R>,
    scope: Scope,
    data: <R::Domain as ScopeDomain>::ScopeData,
) -> ContextView<R> {
    ContextView {
        declared: v.declared.push(scope),
        data: v.data.push(ScopeDatum { scope, data }),
        ..v
    }
}

/// The run once a task was scheduled. A task that was scheduled already is
/// not scheduled again.
pub open spec fn with_task<R: ElaboratorRole>(
    v: ContextView<R>,
    task: ElaboratorTask<R>,
) -> ContextView<R> {
    ContextView {
        pending: if v.pending.contains(task) {
            v.pending
        } else {
            v.pending.push(task)
        },
        ..v
    }
}

/// The run once a task was scheduled for every node of a list.
pub open spec fn with_tasks<R: ElaboratorRole>(
    v: ContextView<R>,
    nodes: Seq<AstKey>,
    incoming: Scope,
    input: R::Input,
) -> ContextView<R>
    decreases nodes.len(),
{
    if nodes.len() == 0 {
        v
    } else {
        with_task(
            with_tasks(v, nodes.drop_last(), incoming, input),
            ElaboratorTask { ast: nodes.last(), incoming, input },
        )
    }
}

/// The scope that a catalog gave, or the refusal where it gave none.
pub open spec fn why_not_declared<R: ElaboratorRole>(
    v: ContextView<R>,
    scope: Option<Scope>,
) -> Option<ScopeMisuse> {
    if v.access == ScopeAccess::Query {
        Some(ScopeMisuse::CannotDeclare)
    } else if scope is None {
        Some(ScopeMisuse::NoIdentity)
    } else if v.declared.contains(scope->Some_0) {
        Some(ScopeMisuse::DeclaredTwice)
    } else {
        None
    }
}

/// One run of a rule.
pub struct ElaboratorCx<R: ElaboratorRole> {
    access: ScopeAccess,
    task: Option<ElaboratorTask<R>>,
    incoming: Option<Scope>,
    input: R::Input,
    node: Option<AstKey>,
    interpretations: Vec<ParseCandidate<R::Ast>>,
    data: Vec<ScopeDatum<R::Domain>>,
    edges: Vec<ScopeEdge<R::Domain>>,
    lifecycles: Vec<Scope>,
    declared: Vec<Scope>,
    requests: Vec<<R::Domain as ScopeDomain>::Request>,
    diagnostics: Vec<ElaboratorDiagnostic<R::Diagnostic>>,
    pending: Vec<ElaboratorTask<R>>,
    awaiting: bool,
}

impl<R: ElaboratorRole> View for ElaboratorCx<R> {
    type V = ContextView<R>;

    closed spec fn view(&self) -> ContextView<R> {
        ContextView {
            access: self.access,
            task: self.task,
            incoming: self.incoming,
            input: self.input,
            node: self.node,
            interpretations: self.interpretations@,
            data: self.data@,
            edges: self.edges@,
            lifecycles: self.lifecycles@,
            declared: self.declared@,
            requests: self.requests@,
            diagnostics: self.diagnostics@,
            pending: self.pending@,
            awaiting: self.awaiting,
        }
    }
}

/// A run that has staged nothing.
pub open spec fn fresh<R: ElaboratorRole>(
    access: ScopeAccess,
    input: R::Input,
    interpretations: Seq<ParseCandidate<R::Ast>>,
) -> ContextView<R> {
    ContextView {
        access,
        task: None,
        incoming: None,
        input,
        node: None,
        interpretations,
        data: Seq::empty(),
        edges: Seq::empty(),
        lifecycles: Seq::empty(),
        declared: Seq::empty(),
        requests: Seq::empty(),
        diagnostics: Seq::empty(),
        pending: Seq::empty(),
        awaiting: false,
    }
}

/// What a rule may do with one interpretation. The rule decides.
pub trait Attempt<R: ElaboratorRole, T, E> {
    /// What an attempt may lead to: anything, unless the rule says otherwise.
    open spec fn gives(
        &self,
        before: ContextView<R>,
        ast: R::Ast,
        after: ContextView<R>,
        r: Result<T, E>,
    ) -> bool {
        true
    }

    fn run(&self, cx: &mut ElaboratorCx<R>, ast: &R::Ast) -> (r: Result<T, E>)
        requires
            old(cx)@.wf(),
        ensures
            final(cx)@.wf(),
            self.gives(old(cx)@, *ast, final(cx)@, r),
    ;
}

/// An attempt with the interpretation of a product. Whether something is awaited
/// may stem from attempts before it.
pub open spec fn tries<R: ElaboratorRole, T, E, A: Attempt<R, T, E>>(
    attempt: A,
    v: ContextView<R>,
    product: usize,
    awaiting: bool,
    after: ContextView<R>,
    r: Result<T, E>,
) -> bool {
    match place_of_product(v.interpretations, product) {
        Some(place) => {
            let candidate = v.interpretations[place];
            attempt.gives(
                with_choice(ContextView { awaiting, ..v }, candidate.node),
                *candidate.value,
                after,
                r,
            )
        },
        None => false,
    }
}

/// A product was tried in its turn and rejected. What it read that was not there
/// yet is awaited from then on.
pub open spec fn rejected_in_turn<R: ElaboratorRole, T, E, A: Attempt<R, T, E>>(
    attempt: A,
    v: ContextView<R>,
    products: Seq<usize>,
    waits: Seq<bool>,
    reasons: Seq<E>,
    turn: int,
) -> bool {
    exists|after: ContextView<R>| #[trigger]
        tries(attempt, v, products[turn], waits[turn], after, Err::<T, E>(reasons[turn]))
            && waits[turn + 1] == after.awaiting
}

/// The first products were rejected, one after the other, each for a reason.
pub open spec fn rejected_before<R: ElaboratorRole, T, E, A: Attempt<R, T, E>>(
    attempt: A,
    v: ContextView<R>,
    products: Seq<usize>,
    waits: Seq<bool>,
    reasons: Seq<E>,
) -> bool {
    &&& reasons.len() <= products.len()
    &&& waits.len() == reasons.len() + 1
    &&& waits[0] == v.awaiting
    &&& forall|turn: int|
        0 <= turn < reasons.len() ==> #[trigger] rejected_in_turn::<R, T, E, A>(
            attempt,
            v,
            products,
            waits,
            reasons,
            turn,
        )
}

/// Texts are what reasons are in words.
pub open spec fn in_words<E: core::fmt::Display>(reasons: Seq<E>, texts: Seq<String>) -> bool {
    &&& texts.len() == reasons.len()
    &&& forall|i: int|
        0 <= i < reasons.len() ==> vstd::string::to_string_from_display_ensures::<E>(
            &reasons[i],
            #[trigger] texts[i],
        )
}

/// The texts of strings.
pub open spec fn texts_of(texts: Seq<String>) -> Seq<Seq<char>> {
    texts.map_values(|text: String| text@)
}

/// What trying products in turn leads to: the first that is not rejected is
/// taken; one that is not known ends it; and where every one is rejected, the
/// message says why each was. What a rejected attempt staged is gone, except
/// that something it read was not there yet.
pub open spec fn tried<R: ElaboratorRole, T, E: core::fmt::Display, A: Attempt<R, T, E>>(
    attempt: A,
    v: ContextView<R>,
    products: Seq<usize>,
    w: ContextView<R>,
    r: Result<T, ElaboratorError<R::Diagnostic>>,
) -> bool {
    exists|waits: Seq<bool>, reasons: Seq<E>| #[trigger]
        rejected_before::<R, T, E, A>(attempt, v, products, waits, reasons) && {
            let n = reasons.len() as int;
            let left = ContextView { awaiting: waits[n], ..v };
            match r {
                Ok(found) => n < products.len() && tries(
                    attempt,
                    v,
                    products[n],
                    waits[n],
                    w,
                    Ok::<T, E>(found),
                ),
                Err(error) => w == left && if n < products.len() {
                    &&& place_of_product(v.interpretations, products[n]) is None
                    &&& error == ElaboratorError::<R::Diagnostic>::Framework(
                        FrameworkDiagnostic::UnknownInterpretation(products[n]),
                    )
                } else {
                    exists|texts: Seq<String>| #[trigger]
                        in_words(reasons, texts) && says(
                            error,
                            all_rejected(products, texts_of(texts)),
                        )
                },
            }
        }
}

/// A refusal in words.
pub open spec fn says<D>(error: ElaboratorError<D>, words: Seq<char>) -> bool {
    error matches ElaboratorError::Framework(FrameworkDiagnostic::Message(text)) && text@ == words
}

/// The first entry under a key.
pub open spec fn is_first_under<K, T>(list: Seq<(K, T)>, key: K, i: int) -> bool {
    &&& 0 <= i < list.len()
    &&& list[i].0 == key
    &&& forall|j: int| 0 <= j < i ==> (#[trigger] list[j]).0 != key
}

/// A refusal of the framework.
pub fn refused<D>(diagnostic: FrameworkDiagnostic) -> (r: ElaboratorError<D>)
    ensures
        r == ElaboratorError::<D>::Framework(diagnostic),
{
    ElaboratorError::Framework(diagnostic)
}

/// One product more was rejected.
proof fn lemma_rejected_on<R: ElaboratorRole, T, E, A: Attempt<R, T, E>>(
    attempt: A,
    v: ContextView<R>,
    products: Seq<usize>,
    waits: Seq<bool>,
    reasons: Seq<E>,
    after: ContextView<R>,
    reason: E,
)
    requires
        rejected_before::<R, T, E, A>(attempt, v, products, waits, reasons),
        reasons.len() < products.len(),
        tries(
            attempt,
            v,
            products[reasons.len() as int],
            waits[reasons.len() as int],
            after,
            Err::<T, E>(reason),
        ),
    ensures
        rejected_before::<R, T, E, A>(
            attempt,
            v,
            products,
            waits.push(after.awaiting),
            reasons.push(reason),
        ),
{
    let more = waits.push(after.awaiting);
    let all = reasons.push(reason);
    assert forall|turn: int| 0 <= turn < all.len() implies #[trigger] rejected_in_turn::<R, T, E, A>(
        attempt,
        v,
        products,
        more,
        all,
        turn,
    ) by {
        if turn < reasons.len() {
            assert(rejected_in_turn::<R, T, E, A>(attempt, v, products, waits, reasons, turn));
            let left = choose|left: ContextView<R>| #[trigger]
                tries(attempt, v, products[turn], waits[turn], left, Err::<T, E>(reasons[turn]))
                    && waits[turn + 1] == left.awaiting;
            assert(tries(attempt, v, products[turn], more[turn], left, Err::<T, E>(all[turn])));
        } else {
            assert(tries(attempt, v, products[turn], more[turn], after, Err::<T, E>(all[turn])));
        }
    }
}

impl<R: ElaboratorRole> ElaboratorCx<R> {
    /// The run for a root.
    pub fn root(
        access: ScopeAccess,
        interpretations: Vec<ParseCandidate<R::Ast>>,
        input: R::Input,
    ) -> (r: Self)
        ensures
            r@ == fresh::<R>(access, input, interpretations@),
            r@.wf(),
    {
        let r = ElaboratorCx {
            access,
            task: None,
            incoming: None,
            input,
            node: None,
            interpretations,
            data: Vec::new(),
            edges: Vec::new(),
            lifecycles: Vec::new(),
            declared: Vec::new(),
            requests: Vec::new(),
            diagnostics: Vec::new(),
            pending: Vec::new(),
            awaiting: false,
        };
        assert(r@ =~= fresh::<R>(access, input, interpretations@));
        r
    }

    /// The run for a task.
    pub fn task(
        access: ScopeAccess,
        task: ElaboratorTask<R>,
        interpretation: Option<ParseCandidate<R::Ast>>,
    ) -> (r: Self)
        ensures
            r@ == (ContextView {
                task: Some(task),
                incoming: Some(task.incoming),
                node: Some(task.ast),
                ..fresh::<R>(
                    access,
                    task.input,
                    match interpretation {
                        Some(candidate) => seq![candidate],
                        None => Seq::empty(),
                    },
                )
            }),
            r@.wf(),
    {
        let mut interpretations: Vec<ParseCandidate<R::Ast>> = Vec::new();
        if let Some(candidate) = interpretation {
            interpretations.push(candidate);
        }
        let mut r = Self::root(access, interpretations, task.input.copied());
        r.incoming = Some(task.incoming);
        r.node = Some(task.ast);
        r.task = Some(task);
        proof {
            assert(interpretations@ =~= match interpretation {
                Some(candidate) => seq![candidate],
                None => Seq::empty(),
            });
        }
        r
    }

    /// The input of the run.
    pub fn input(&self) -> (r: &R::Input)
        ensures
            *r == self@.input,
    {
        &self.input
    }

    /// Whether the run is for a root that is not attached yet.
    pub fn is_root(&self) -> (r: bool)
        ensures
            r == (self@.task is None),
    {
        self.task.is_none()
    }

    /// The interpretations to choose from.
    pub fn interpretations(&self) -> (r: &Vec<ParseCandidate<R::Ast>>)
        ensures
            r@ == self@.interpretations,
    {
        &self.interpretations
    }

    /// Chooses the interpretation of a product. Another one can not be chosen
    /// later.
    pub fn choose_interpretation(&mut self, product: usize) -> (r: Result<
        Arc<R::Ast>,
        ElaboratorError<R::Diagnostic>,
    >)
        requires
            old(self)@.wf(),
        ensures
            final(self)@.wf(),
            match place_of_product(old(self)@.interpretations, product) {
                None => r == Err::<Arc<R::Ast>, ElaboratorError<R::Diagnostic>>(
                    ElaboratorError::Framework(
                        FrameworkDiagnostic::UnknownInterpretation(product),
                    ),
                ) && final(self)@ == old(self)@,
                Some(i) => {
                    let candidate = old(self)@.interpretations[i];
                    if old(self)@.node is Some && old(self)@.node != Some(candidate.node) {
                        r == Err::<Arc<R::Ast>, ElaboratorError<R::Diagnostic>>(
                            ElaboratorError::Framework(
                                FrameworkDiagnostic::InterpretationAlreadyChosen,
                            ),
                        ) && final(self)@ == old(self)@
                    } else {
                        &&& r == Ok::<Arc<R::Ast>, ElaboratorError<R::Diagnostic>>(candidate.value)
                        &&& final(self)@ == if old(self)@.node is Some {
                            old(self)@
                        } else {
                            with_choice(old(self)@, candidate.node)
                        }
                    }
                },
            },
    {
        let ghost list = self@.interpretations;
        let mut i: usize = 0;
        while i < self.interpretations.len()
            invariant
                i <= self.interpretations@.len(),
                *self == *old(self),
                list == self.interpretations@,
                forall|j: int| 0 <= j < i ==> (#[trigger] list[j]).product != product,
                self@.wf(),
                list == old(self)@.interpretations,
            decreases self.interpretations@.len() - i,
        {
            if self.interpretations[i].product == product {
                proof {
                    assert(is_first_of_product(list, product, i as int));
                    let k = choose|k: int| is_first_of_product(list, product, k);
                    assert(k == i) by {
                        if k < i {
                            assert(list[k].product != product);
                        }
                        if i < k {
                            assert(list[i as int].product != product);
                        }
                    }
                }
                let node = self.interpretations[i].node;
                let value = Arc::clone(&self.interpretations[i].value);
                if let Some(selected) = self.node {
                    if !selected.same(&node) {
                        return Err(refused(FrameworkDiagnostic::InterpretationAlreadyChosen));
                    }
                    return Ok(value);
                }
                self.node = Some(node);
                if let Some(incoming) = self.incoming {
                    self.task = Some(ElaboratorTask::new(node, incoming, self.input.copied()));
                }
                assert(self@ =~= with_choice(old(self)@, node));
                return Ok(value);
            }
            i += 1;
        }
        proof {
            assert forall|k: int| !is_first_of_product(list, product, k) by {
                if 0 <= k < list.len() {
                    assert(list[k].product != product);
                }
            }
        }
        Err(refused(FrameworkDiagnostic::UnknownInterpretation(product)))
    }

    /// Chooses the interpretation, where there is exactly one.
    pub fn choose_unique_interpretation(&mut self) -> (r: Result<
        Arc<R::Ast>,
        ElaboratorError<R::Diagnostic>,
    >)
        requires
            old(self)@.wf(),
        ensures
            final(self)@.wf(),
            ({
                let list = old(self)@.interpretations;
                if list.len() == 0 {
                    r == Err::<Arc<R::Ast>, ElaboratorError<R::Diagnostic>>(
                        ElaboratorError::Framework(FrameworkDiagnostic::MissingInterpretation),
                    ) && final(self)@ == old(self)@
                } else if list.len() > 1 {
                    r == Err::<Arc<R::Ast>, ElaboratorError<R::Diagnostic>>(
                        ElaboratorError::Framework(
                            FrameworkDiagnostic::AmbiguousInterpretation(list.len() as usize),
                        ),
                    ) && final(self)@ == old(self)@
                } else if old(self)@.node is Some && old(self)@.node != Some(list[0].node) {
                    r == Err::<Arc<R::Ast>, ElaboratorError<R::Diagnostic>>(
                        ElaboratorError::Framework(
                            FrameworkDiagnostic::InterpretationAlreadyChosen,
                        ),
                    ) && final(self)@ == old(self)@
                } else {
                    &&& r == Ok::<Arc<R::Ast>, ElaboratorError<R::Diagnostic>>(list[0].value)
                    &&& final(self)@ == if old(self)@.node is Some {
                        old(self)@
                    } else {
                        with_choice(old(self)@, list[0].node)
                    }
                }
            }),
    {
        let count: usize = self.interpretations.len();
        if count == 0 {
            return Err(refused(FrameworkDiagnostic::MissingInterpretation));
        }
        if count > 1 {
            return Err(refused(FrameworkDiagnostic::AmbiguousInterpretation(count)));
        }
        let product = self.interpretations[0].product;
        assert(is_first_of_product(self@.interpretations, product, 0));
        self.choose_interpretation(product)
    }

    /// A copy of the run.
    fn checkpoint(&self) -> (r: Self)
        ensures
            r@ == self@,
    {
        let mut interpretations: Vec<ParseCandidate<R::Ast>> = Vec::new();
        let mut i: usize = 0;
        while i < self.interpretations.len()
            invariant
                i <= self.interpretations@.len(),
                interpretations@ == self.interpretations@.take(i as int),
            decreases self.interpretations@.len() - i,
        {
            let candidate = &self.interpretations[i];
            let copy = ParseCandidate {
                product: candidate.product,
                node: candidate.node,
                value: Arc::clone(&candidate.value),
            };
            interpretations.push(copy);
            assert(self.interpretations@.take(i + 1) =~= self.interpretations@.take(i as int).push(
                self.interpretations@[i as int],
            ));
            i += 1;
        }
        assert(self.interpretations@.take(i as int) =~= self.interpretations@);
        let task = match &self.task {
            Some(task) => Some(task.copied()),
            None => None,
        };
        let r = ElaboratorCx {
            access: self.access,
            task,
            incoming: self.incoming,
            input: self.input.copied(),
            node: self.node,
            interpretations,
            data: copy_list(&self.data),
            edges: copy_list(&self.edges),
            lifecycles: copy_list(&self.lifecycles),
            declared: copy_list(&self.declared),
            requests: copy_list(&self.requests),
            diagnostics: copy_diagnostics(&self.diagnostics),
            pending: copy_list(&self.pending),
            awaiting: self.awaiting,
        };
        assert(r@ =~= self@);
        r
    }

    /// Tries interpretations one after the other until one is not rejected.
    /// What a rejected attempt staged is gone, except that something it read
    /// was not there yet.
    pub fn try_interpretations<T, E: core::fmt::Display, A: Attempt<R, T, E>>(
        &mut self,
        products: &Vec<usize>,
        attempt: &A,
    ) -> (r: Result<T, ElaboratorError<R::Diagnostic>>)
        requires
            old(self)@.wf(),
        ensures
            final(self)@.wf(),
            if old(self)@.node is Some {
                r == Err::<T, ElaboratorError<R::Diagnostic>>(
                    ElaboratorError::Framework(FrameworkDiagnostic::InterpretationAlreadyChosen),
                ) && final(self)@ == old(self)@
            } else if products@.len() == 0 {
                r == Err::<T, ElaboratorError<R::Diagnostic>>(
                    ElaboratorError::Framework(FrameworkDiagnostic::MissingInterpretation),
                ) && final(self)@ == old(self)@
            } else {
                tried::<R, T, E, A>(*attempt, old(self)@, products@, final(self)@, r)
            },
    {
        let ghost v = self@;
        if self.node.is_some() {
            return Err(refused(FrameworkDiagnostic::InterpretationAlreadyChosen));
        }
        if products.len() == 0 {
            return Err(refused(FrameworkDiagnostic::MissingInterpretation));
        }
        let mut failures = String::new();
        let ghost mut waits: Seq<bool> = seq![v.awaiting];
        let ghost mut reasons: Seq<E> = Seq::empty();
        let ghost mut texts: Seq<String> = Seq::empty();
        assert(texts_of(texts) =~= Seq::empty());
        let mut i: usize = 0;
        while i < products.len()
            invariant
                i <= products@.len(),
                v == old(self)@,
                v.wf(),
                v.node is None,
                products@.len() > 0,
                reasons.len() == i,
                rejected_before::<R, T, E, A>(*attempt, v, products@, waits, reasons),
                in_words(reasons, texts),
                failures@ == rejections(products@, texts_of(texts)),
                self@ == (ContextView { awaiting: waits[i as int], ..v }),
                self@.wf(),
            decreases products@.len() - i,
        {
            let mut checkpoint = self.checkpoint();
            assert(self@.interpretations == v.interpretations && self@.node is None);
            let value = match self.choose_interpretation(products[i]) {
                Ok(value) => value,
                Err(error) => {
                    assert(rejected_before::<R, T, E, A>(*attempt, v, products@, waits, reasons));
                    return Err(error);
                },
            };
            match attempt.run(self, &value) {
                Ok(found) => {
                    proof {
                        assert(tries(
                            *attempt,
                            v,
                            products@[i as int],
                            waits[i as int],
                            self@,
                            Ok::<T, E>(found),
                        ));
                        assert(rejected_before::<R, T, E, A>(
                            *attempt,
                            v,
                            products@,
                            waits,
                            reasons,
                        ));
                    }
                    return Ok(found);
                },
                Err(reason) => {
                    let text = reason.to_string();
                    append_rejection(
                        &mut failures,
                        products,
                        i,
                        &text,
                        Ghost(texts_of(texts)),
                    );
                    proof {
                        assert(tries(
                            *attempt,
                            v,
                            products@[i as int],
                            waits[i as int],
                            self@,
                            Err::<T, E>(reason),
                        ));
                        lemma_rejected_on::<R, T, E, A>(
                            *attempt,
                            v,
                            products@,
                            waits,
                            reasons,
                            self@,
                            reason,
                        );
                        waits = waits.push(self@.awaiting);
                        reasons = reasons.push(reason);
                        assert(texts_of(texts.push(text)) =~= texts_of(texts).push(text@));
                        texts = texts.push(text);
                    }
                    checkpoint.awaiting = self.awaiting;
                    *self = checkpoint;
                },
            }
            assert(self@ =~= ContextView { awaiting: waits[i + 1], ..v });
            i += 1;
        }
        let mut message = "every requested interpretation was rejected: ".to_owned();
        message.append(failures.as_str());
        proof {
            assert(message@ == all_rejected(products@, texts_of(texts)));
            assert(in_words(reasons, texts));
            assert(rejected_before::<R, T, E, A>(*attempt, v, products@, waits, reasons));
        }
        Err(refused(FrameworkDiagnostic::Message(message)))
    }

    /// The node whose interpretation was chosen.
    pub fn ast_key(&self) -> (r: AstKey)
        requires
            self@.node is Some,
        ensures
            Some(r) == self@.node,
    {
        self.node.unwrap()
    }

    /// The artifact of the chosen node, where it was read.
    pub fn current_artifact<'a, K, M, V>(
        &self,
        found: Option<&'a StructuralArtifact<K, M, V>>,
    ) -> (r: Result<&'a StructuralArtifact<K, M, V>, ElaboratorError<R::Diagnostic>>)
        requires
            self@.node is Some,
        ensures
            r == match found {
                Some(artifact) => Ok::<_, ElaboratorError<R::Diagnostic>>(artifact),
                None => Err(
                    ElaboratorError::Framework(
                        FrameworkDiagnostic::MissingAst(self@.node->Some_0),
                    ),
                ),
            },
    {
        match found {
            Some(artifact) => Ok(artifact),
            None => Err(refused(FrameworkDiagnostic::MissingAst(self.ast_key()))),
        }
    }

    /// The payload of the chosen node, where it has the given type.
    pub fn current_ast<K: Datum, M: Datum, V: Datum>(
        &self,
        found: Option<&StructuralArtifact<K, M, V>>,
        type_id: u64,
    ) -> (r: Result<Option<Arc<V>>, ElaboratorError<R::Diagnostic>>)
        requires
            self@.node is Some,
        ensures
            match found {
                Some(artifact) => if artifact@.type_id == type_id {
                    r matches Ok(Some(value)) && *value == artifact@.value
                } else {
                    r matches Ok(None)
                },
                None => r == Err::<Option<Arc<V>>, ElaboratorError<R::Diagnostic>>(
                    ElaboratorError::Framework(
                        FrameworkDiagnostic::MissingAst(self@.node->Some_0),
                    ),
                ),
            },
    {
        match self.current_artifact(found) {
            Ok(artifact) => Ok(artifact.deref(type_id)),
            Err(error) => Err(error),
        }
    }

    /// The payload of a node, which must have the given type.
    pub fn ast<K: Datum, M: Datum, V: Datum>(
        &self,
        node: AstKey,
        found: Option<&StructuralArtifact<K, M, V>>,
        type_id: u64,
    ) -> (r: Result<Arc<V>, ElaboratorError<R::Diagnostic>>)
        ensures
            match found {
                Some(artifact) if artifact@.type_id == type_id => r matches Ok(value) && *value
                    == artifact@.value,
                _ => r == Err::<Arc<V>, ElaboratorError<R::Diagnostic>>(
                    ElaboratorError::Framework(FrameworkDiagnostic::MissingAst(node)),
                ),
            },
    {
        if let Some(artifact) = found {
            if let Some(value) = artifact.deref(type_id) {
                return Ok(value);
            }
        }
        Err(refused(FrameworkDiagnostic::MissingAst(node)))
    }

    /// The place of a node, where it was read.
    pub fn span(&self, node: AstKey, found: Option<ByteRange>) -> (r: Result<
        ByteRange,
        ElaboratorError<R::Diagnostic>,
    >)
        ensures
            r == match found {
                Some(range) => Ok::<ByteRange, ElaboratorError<R::Diagnostic>>(range),
                None => Err(ElaboratorError::Framework(FrameworkDiagnostic::MissingAst(node))),
            },
    {
        match found {
            Some(range) => Ok(range),
            None => Err(refused(FrameworkDiagnostic::MissingAst(node))),
        }
    }

    /// The text of a token, where it was read.
    pub fn text(&self, token: usize, found: Option<String>) -> (r: Result<
        String,
        ElaboratorError<R::Diagnostic>,
    >)
        ensures
            r == match found {
                Some(text) => Ok::<String, ElaboratorError<R::Diagnostic>>(text),
                None => Err(ElaboratorError::Framework(FrameworkDiagnostic::MissingToken(token))),
            },
    {
        match found {
            Some(text) => Ok(text),
            None => Err(refused(FrameworkDiagnostic::MissingToken(token))),
        }
    }

    /// The scope that the catalog gave for a key.
    pub fn scope(&self, found: Option<Scope>) -> (r: Result<
        Scope,
        ElaboratorError<R::Diagnostic>,
    >)
        ensures
            match found {
                Some(scope) => r == Ok::<Scope, ElaboratorError<R::Diagnostic>>(scope),
                None => misused(r, ScopeMisuse::NoIdentity),
            },
    {
        match found {
            Some(scope) => Ok(scope),
            None => refuse(ScopeMisuse::NoIdentity),
        }
    }

    /// Declares one scope and its data. `scope` is what the catalog gave for
    /// its key.
    pub fn declare(
        &mut self,
        scope: Option<Scope>,
        data: <R::Domain as ScopeDomain>::ScopeData,
    ) -> (r: Result<Scope, ElaboratorError<R::Diagnostic>>)
        requires
            old(self)@.wf(),
        ensures
            final(self)@.wf(),
            match why_not_declared(old(self)@, scope) {
                Some(misuse) => misused(r, misuse) && final(self)@ == old(self)@,
                None => r == Ok::<Scope, ElaboratorError<R::Diagnostic>>(scope->Some_0)
                    && final(self)@ == with_declared(old(self)@, scope->Some_0, data),
            },
    {
        if self.access == ScopeAccess::Query {
            return refuse(ScopeMisuse::CannotDeclare);
        }
        let scope = match self.scope(scope) {
            Ok(scope) => scope,
            Err(error) => {
                return Err(error);
            },
        };
        if holds(&self.declared, &scope) {
            return refuse(ScopeMisuse::DeclaredTwice);
        }
        self.declared.push(scope);
        self.data.push(ScopeDatum { scope, data });
        proof {
            let w = self@;
            assert(w =~= with_declared(old(self)@, scope, data));
            assert forall|i: int| 0 <= i < w.lifecycles.len() implies w.declared.contains(
                #[trigger] w.lifecycles[i],
            ) by {
                let k = old(self)@.declared.index_of(w.lifecycles[i]);
                assert(old(self)@.declared.contains(old(self)@.lifecycles[i]));
                assert(w.declared[k] == w.lifecycles[i]);
            }
        }
        Ok(scope)
    }

    /// Declares the scope of a root and attaches the run to it.
    pub fn declare_root(
        &mut self,
        scope: Option<Scope>,
        data: <R::Domain as ScopeDomain>::ScopeData,
    ) -> (r: Result<Scope, ElaboratorError<R::Diagnostic>>)
        requires
            old(self)@.wf(),
            old(self)@.incoming is None && why_not_declared(old(self)@, scope) is None ==> old(
                self,
            )@.node is Some,
        ensures
            final(self)@.wf(),
            if old(self)@.incoming is Some {
                misused(r, ScopeMisuse::RootAttachedTwice) && final(self)@ == old(self)@
            } else {
                match why_not_declared(old(self)@, scope) {
                    Some(misuse) => misused(r, misuse) && final(self)@ == old(self)@,
                    None => r == Ok::<Scope, ElaboratorError<R::Diagnostic>>(scope->Some_0)
                        && final(self)@ == with_root(
                        with_declared(old(self)@, scope->Some_0, data),
                        scope->Some_0,
                    ),
                }
            },
    {
        if self.incoming.is_some() {
            return refuse(ScopeMisuse::RootAttachedTwice);
        }
        let scope = match self.declare(scope, data) {
            Ok(scope) => scope,
            Err(error) => {
                return Err(error);
            },
        };
        self.attach(scope);
        Ok(scope)
    }

    fn attach(&mut self, scope: Scope)
        requires
            old(self)@.wf(),
            old(self)@.node is Some,
        ensures
            final(self)@.wf(),
            final(self)@ == with_root(old(self)@, scope),
    {
        let ast = self.ast_key();
        self.incoming = Some(scope);
        self.task = Some(ElaboratorTask::new(ast, scope, self.input.copied()));
        assert(self@ =~= with_root(old(self)@, scope));
    }

    /// Attaches the run to a scope that is there already. A run that is
    /// attached stays where it is.
    pub fn attach_root(&mut self, scope: Option<Scope>) -> (r: Result<
        Scope,
        ElaboratorError<R::Diagnostic>,
    >)
        requires
            old(self)@.wf(),
            old(self)@.incoming is None && scope is Some ==> old(self)@.node is Some,
        ensures
            final(self)@.wf(),
            match scope {
                None => misused(r, ScopeMisuse::NoIdentity) && final(self)@ == old(self)@,
                Some(scope) => match old(self)@.incoming {
                    Some(incoming) => final(self)@ == old(self)@ && if incoming == scope {
                        r == Ok::<Scope, ElaboratorError<R::Diagnostic>>(scope)
                    } else {
                        misused(r, ScopeMisuse::RootAttachedTwice)
                    },
                    None => final(self)@ == with_root(old(self)@, scope) && r == Ok::<
                        Scope,
                        ElaboratorError<R::Diagnostic>,
                    >(scope),
                },
            },
    {
        let scope = match self.scope(scope) {
            Ok(scope) => scope,
            Err(error) => {
                return Err(error);
            },
        };
        if let Some(incoming) = self.incoming {
            if !incoming.same(&scope) {
                return refuse(ScopeMisuse::RootAttachedTwice);
            }
            return Ok(scope);
        }
        self.attach(scope);
        Ok(scope)
    }

    /// The first scope that was allocated for a key.
    pub fn find_scope(&self, allocated: &Vec<Scope>) -> (r: Option<Scope>)
        ensures
            r == if allocated@.len() > 0 {
                Some(allocated@[0])
            } else {
                None
            },
    {
        if allocated.len() > 0 {
            Some(allocated[0])
        } else {
            None
        }
    }

    /// The data of a scope, among those that are out.
    pub fn data(
        &self,
        scope: Scope,
        out: &Vec<(Scope, <R::Domain as ScopeDomain>::ScopeData)>,
    ) -> (r: Option<<R::Domain as ScopeDomain>::ScopeData>)
        ensures
            match r {
                Some(data) => exists|i: int| #[trigger]
                    is_first_under(out@, scope, i) && out@[i].1 == data,
                None => forall|i: int| 0 <= i < out@.len() ==> (#[trigger] out@[i]).0 != scope,
            },
    {
        let mut i: usize = 0;
        while i < out.len()
            invariant
                i <= out@.len(),
                forall|j: int| 0 <= j < i ==> (#[trigger] out@[j]).0 != scope,
            decreases out@.len() - i,
        {
            if out[i].0.same(&scope) {
                assert(is_first_under(out@, scope, i as int));
                return Some(out[i].1.copied());
            }
            i += 1;
        }
        None
    }

    /// The scope that the run is attached to.
    pub fn incoming_scope(&self) -> (r: Scope)
        requires
            self@.incoming is Some,
        ensures
            Some(r) == self@.incoming,
    {
        self.incoming.unwrap()
    }

    /// Stages an edge between scopes.
    pub fn edge(
        &mut self,
        source: Scope,
        label: <R::Domain as ScopeDomain>::Label,
        target: Scope,
        property: ScopeProperty,
    ) -> (r: Result<(), ElaboratorError<R::Diagnostic>>)
        requires
            old(self)@.wf(),
        ensures
            final(self)@.wf(),
            if old(self)@.access == ScopeAccess::Query {
                misused(r, ScopeMisuse::CannotLink) && final(self)@ == old(self)@
            } else if source == target && property == ScopeProperty::Acyclic {
                misused(r, ScopeMisuse::SelfReferential) && final(self)@ == old(self)@
            } else {
                r is Ok && final(self)@ == (ContextView {
                    edges: old(self)@.edges.push(ScopeEdge { source, label, target, property }),
                    ..old(self)@
                })
            },
    {
        if self.access == ScopeAccess::Query {
            return refuse(ScopeMisuse::CannotLink);
        }
        if source.same(&target) && property == ScopeProperty::Acyclic {
            return refuse(ScopeMisuse::SelfReferential);
        }
        self.edges.push(ScopeEdge { source, label, target, property });
        Ok(())
    }

    /// Closes a scope that the run declared, once all of its edges are
    /// staged.
    pub fn seal(&mut self, scope: Scope) -> (r: Result<(), ElaboratorError<R::Diagnostic>>)
        requires
            old(self)@.wf(),
        ensures
            final(self)@.wf(),
            if !old(self)@.declared.contains(scope) {
                misused(r, ScopeMisuse::NotDeclaredHere) && final(self)@ == old(self)@
            } else if old(self)@.lifecycles.contains(scope) {
                misused(r, ScopeMisuse::ClosedTwice) && final(self)@ == old(self)@
            } else {
                r is Ok && final(self)@ == (ContextView {
                    lifecycles: old(self)@.lifecycles.push(scope),
                    ..old(self)@
                })
            },
    {
        if !holds(&self.declared, &scope) {
            return refuse(ScopeMisuse::NotDeclaredHere);
        }
        if holds(&self.lifecycles, &scope) {
            return refuse(ScopeMisuse::ClosedTwice);
        }
        self.lifecycles.push(scope);
        Ok(())
    }

    /// Asks for a source document.
    pub fn require_source(&mut self, request: <R::Domain as ScopeDomain>::Request)
        requires
            old(self)@.wf(),
        ensures
            final(self)@.wf(),
            final(self)@ == (ContextView {
                requests: old(self)@.requests.push(request),
                ..old(self)@
            }),
    {
        self.requests.push(request);
    }

    /// Schedules a task for a node.
    pub fn schedule(&mut self, node: AstKey, incoming: Scope, input: R::Input) -> (r: Child<R>)
        requires
            old(self)@.wf(),
        ensures
            final(self)@.wf(),
            r.task == (ElaboratorTask::<R> { ast: node, incoming, input }),
            final(self)@ == with_task(old(self)@, r.task),
    {
        let task: ElaboratorTask<R> = ElaboratorTask::new(node, incoming, input);
        if !holds(&self.pending, &task) {
            self.pending.push(task.copied());
        }
        assert(self@ =~= with_task(old(self)@, task));
        Child { task }
    }

    /// Schedules a task for every node directly below a syntax node.
    pub fn schedule_children<T: AstWalk>(
        &mut self,
        ast: &T,
        incoming: Scope,
        input: R::Input,
    ) -> (r: Vec<Child<R>>)
        requires
            old(self)@.wf(),
        ensures
            final(self)@.wf(),
            final(self)@ == with_tasks(old(self)@, ast.below(), incoming, input),
            r@.len() == ast.below().len(),
            forall|i: int|
                0 <= i < r@.len() ==> (#[trigger] r@[i]).task == (ElaboratorTask::<R> {
                    ast: ast.below()[i],
                    incoming,
                    input,
                }),
    {
        let mut keys: Vec<AstKey> = Vec::new();
        ast.direct_children(&mut keys);
        assert(keys@ =~= ast.below());
        let mut children: Vec<Child<R>> = Vec::new();
        let mut i: usize = 0;
        while i < keys.len()
            invariant
                i <= keys@.len(),
                keys@ == ast.below(),
                self@.wf(),
                self@ == with_tasks(old(self)@, keys@.take(i as int), incoming, input),
                children@.len() == i,
                forall|j: int|
                    0 <= j < i ==> (#[trigger] children@[j]).task == (ElaboratorTask::<R> {
                        ast: keys@[j],
                        incoming,
                        input,
                    }),
            decreases keys@.len() - i,
        {
            proof {
                assert(keys@.take(i + 1).drop_last() =~= keys@.take(i as int));
            }
            let child = self.schedule(keys[i], incoming, input.copied());
            children.push(child);
            i += 1;
        }
        assert(keys@.take(i as int) =~= keys@);
        children
    }

    /// The output of a child, where it is complete. Otherwise the run awaits
    /// it.
    pub fn observe(&mut self, found: Option<Elaboration<R::Output>>) -> (r: Option<R::Output>)
        requires
            old(self)@.wf(),
        ensures
            final(self)@.wf(),
            match found {
                Some(Elaboration::Complete(value)) => r == Some(value) && final(self)@
                    == old(self)@,
                _ => r is None && final(self)@ == (ContextView { awaiting: true, ..old(self)@ }),
            },
    {
        match found {
            Some(Elaboration::Complete(value)) => Some(value),
            _ => {
                self.awaiting = true;
                None
            },
        }
    }

    /// The diagnostics of a child, among those that are out. The run does not
    /// wait for them.
    pub fn child_diagnostics<'a>(
        &self,
        child: &Child<R>,
        out: &'a Vec<(ElaboratorTask<R>, Vec<ElaboratorDiagnostic<R::Diagnostic>>)>,
    ) -> (r: Option<&'a Vec<ElaboratorDiagnostic<R::Diagnostic>>>)
        ensures
            match r {
                Some(list) => exists|i: int| #[trigger]
                    is_first_under(out@, child.task, i) && out@[i].1 == *list,
                None => forall|i: int|
                    0 <= i < out@.len() ==> (#[trigger] out@[i]).0 != child.task,
            },
    {
        let mut i: usize = 0;
        while i < out.len()
            invariant
                i <= out@.len(),
                forall|j: int| 0 <= j < i ==> (#[trigger] out@[j]).0 != child.task,
            decreases out@.len() - i,
        {
            if out[i].0.same(&child.task) {
                assert(is_first_under(out@, child.task, i as int));
                return Some(&out[i].1);
            }
            i += 1;
        }
        None
    }

    /// What a resolution may read of a scope that it comes to: the data only
    /// where it asks for them. A scope that is not closed yet may still change,
    /// so the run waits for it.
    pub fn visit_scope(
        &mut self,
        closed: bool,
        needs_data: bool,
        found: Option<<R::Domain as ScopeDomain>::ScopeData>,
    ) -> (r: Option<<R::Domain as ScopeDomain>::ScopeData>)
        requires
            old(self)@.wf(),
        ensures
            final(self)@.wf(),
            final(self)@ == (ContextView {
                awaiting: old(self)@.awaiting || !closed,
                ..old(self)@
            }),
            r == if needs_data {
                found
            } else {
                None
            },
    {
        if !closed {
            self.awaiting = true;
        }
        if needs_data {
            found
        } else {
            None
        }
    }

    /// Reports a diagnostic of the rule.
    pub fn report(&mut self, diagnostic: R::Diagnostic)
        requires
            old(self)@.wf(),
        ensures
            final(self)@.wf(),
            final(self)@ == (ContextView {
                diagnostics: old(self)@.diagnostics.push(ElaboratorDiagnostic::Rule(diagnostic)),
                ..old(self)@
            }),
    {
        self.diagnostics.push(ElaboratorDiagnostic::Rule(diagnostic));
    }

    /// Reports a diagnostic of the framework.
    pub fn report_framework(&mut self, diagnostic: FrameworkDiagnostic)
        requires
            old(self)@.wf(),
        ensures
            final(self)@.wf(),
            final(self)@ == (ContextView {
                diagnostics: old(self)@.diagnostics.push(
                    ElaboratorDiagnostic::Framework(diagnostic),
                ),
                ..old(self)@
            }),
    {
        self.diagnostics.push(ElaboratorDiagnostic::Framework(diagnostic));
    }

    /// What the run publishes for a task. A run that awaits something
    /// publishes that instead of its result, and one that left a scope open
    /// publishes nothing.
    pub fn publish(self, task: ElaboratorTask<R>, result: Elaboration<R::Output>) -> (r: Result<
        Publication<R>,
        RunRefusal,
    >)
        requires
            self@.wf(),
        ensures
            publishes(self@, task, result, r),
    {
        let mut i: usize = 0;
        while i < self.declared.len()
            invariant
                i <= self.declared@.len(),
                self@.declared == self.declared@,
                self@.lifecycles == self.lifecycles@,
                self@.wf(),
                forall|j: int|
                    0 <= j < i ==> self@.lifecycles.contains(#[trigger] self@.declared[j]),
            decreases self.declared@.len() - i,
        {
            if !holds(&self.lifecycles, &self.declared[i]) {
                assert(!self@.lifecycles.contains(self@.declared[i as int]));
                return Err(RunRefusal::UnsealedScope);
            }
            i += 1;
        }
        let output = if self.awaiting {
            Elaboration::Awaiting
        } else {
            result
        };
        Ok(
            Publication {
                task,
                output,
                diagnostics: self.diagnostics,
                data: self.data,
                edges: self.edges,
                lifecycles: self.lifecycles,
                requests: self.requests,
                deferred: self.pending,
            },
        )
    }

    /// What the run of a root publishes: what its task does, once it has one.
    /// A run that awaits something publishes nothing yet; any other without a
    /// task never chose an interpretation.
    pub fn finish_root(self, result: Elaboration<R::Output>) -> (r: Result<
        Option<Publication<R>>,
        RunRefusal,
    >)
        requires
            self@.wf(),
        ensures
            finishes(self@, result, r),
    {
        let task = match &self.task {
            Some(task) => task.copied(),
            None => {
                if self.awaiting {
                    return Ok(None);
                }
                return Err(RunRefusal::InterpretationNotSelected);
            },
        };
        match self.publish(task, result) {
            Ok(publication) => Ok(Some(publication)),
            Err(refusal) => Err(refusal),
        }
    }
}

/// Why a run can not be published.
#[derive(Clone, Copy, Debug, PartialEq, Eq, Structural)]
pub enum RunRefusal {
    /// The run left a scope open.
    UnsealedScope,
    /// The run completed without selecting an interpretation.
    InterpretationNotSelected,
}

/// What a run publishes.
pub struct Publication<R: ElaboratorRole> {
    pub task: ElaboratorTask<R>,
    pub output: Elaboration<R::Output>,
    pub diagnostics: Vec<ElaboratorDiagnostic<R::Diagnostic>>,
    pub data: Vec<ScopeDatum<R::Domain>>,
    pub edges: Vec<ScopeEdge<R::Domain>>,
    pub lifecycles: Vec<Scope>,
    pub requests: Vec<<R::Domain as ScopeDomain>::Request>,
    /// The tasks that are to run next.
    pub deferred: Vec<ElaboratorTask<R>>,
}

/// What the run of a root publishes.
pub open spec fn finishes<R: ElaboratorRole>(
    v: ContextView<R>,
    result: Elaboration<R::Output>,
    r: Result<Option<Publication<R>>, RunRefusal>,
) -> bool {
    match v.task {
        Some(task) => match r {
            Ok(Some(publication)) => publishes(v, task, result, Ok(publication)),
            Ok(None) => false,
            Err(refusal) => publishes(v, task, result, Err(refusal)),
        },
        None => r == if v.awaiting {
            Ok::<Option<Publication<R>>, RunRefusal>(None)
        } else {
            Err(RunRefusal::InterpretationNotSelected)
        },
    }
}

/// Every scope that the run declared is closed.
pub open spec fn all_sealed<R: ElaboratorRole>(v: ContextView<R>) -> bool {
    forall|i: int|
        0 <= i < v.declared.len() ==> v.lifecycles.contains(#[trigger] v.declared[i])
}

/// What a run publishes for a task.
pub open spec fn publishes<R: ElaboratorRole>(
    v: ContextView<R>,
    task: ElaboratorTask<R>,
    result: Elaboration<R::Output>,
    r: Result<Publication<R>, RunRefusal>,
) -> bool {
    match r {
        Err(refusal) => refusal == RunRefusal::UnsealedScope && !all_sealed(v),
        Ok(publication) => {
            &&& all_sealed(v)
            &&& publication.task == task
            &&& publication.output == if v.awaiting {
                Elaboration::<R::Output>::Awaiting
            } else {
                result
            }
            &&& publication.diagnostics@ == v.diagnostics
            &&& publication.data@ == v.data
            &&& publication.edges@ == v.edges
            &&& publication.lifecycles@ == v.lifecycles
            &&& publication.requests@ == v.requests
            &&& publication.deferred@ == v.pending
        },
    }
}

} // verus!
