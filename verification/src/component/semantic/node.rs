//! Running the rules of a role over roots and tasks.

use vstd::prelude::*;

use crate::component::semantic::context::{
    finishes, fresh, publishes, ContextView, ElaboratorCx, ParseCandidate, Publication, RunRefusal,
};
use crate::component::semantic::task::{
    Elaboration, ElaboratorError, ElaboratorRole, ElaboratorTask, ScopeAccess,
};
use crate::framework::scope::path::Datum;

verus! {

/// The rules of a role.
pub trait ElaboratorRules<R: ElaboratorRole> {
    /// What a run may lead to: anything, unless the rules say otherwise.
    open spec fn runs(
        &self,
        before: ContextView<R>,
        after: ContextView<R>,
        r: Result<Elaboration<R::Output>, ElaboratorError<R::Diagnostic>>,
    ) -> bool {
        true
    }

    fn run(&self, cx: &mut ElaboratorCx<R>) -> (r: Result<
        Elaboration<R::Output>,
        ElaboratorError<R::Diagnostic>,
    >)
        requires
            old(cx)@.wf(),
        ensures
            final(cx)@.wf(),
            self.runs(old(cx)@, final(cx)@, r),
    ;
}

/// Why a run published nothing.
pub enum RunError<D> {
    /// The rules failed.
    Rules(ElaboratorError<D>),
    /// What the rules left behind cannot be published.
    Refused(RunRefusal),
}

/// What a run of a root led to.
pub open spec fn root_ran<R: ElaboratorRole, X: ElaboratorRules<R>>(
    rules: X,
    before: ContextView<R>,
    after: ContextView<R>,
    out: Result<Elaboration<R::Output>, ElaboratorError<R::Diagnostic>>,
    r: Result<Option<Publication<R>>, RunError<R::Diagnostic>>,
) -> bool {
    &&& rules.runs(before, after, out)
    &&& match out {
        Ok(result) => match r {
            Ok(found) => finishes(after, result, Ok(found)),
            Err(RunError::Refused(refusal)) => finishes(after, result, Err(refusal)),
            Err(RunError::Rules(_)) => false,
        },
        Err(error) => r == Err::<Option<Publication<R>>, RunError<R::Diagnostic>>(
            RunError::Rules(error),
        ),
    }
}

/// What a run of a task led to.
pub open spec fn task_ran<R: ElaboratorRole, X: ElaboratorRules<R>>(
    rules: X,
    before: ContextView<R>,
    task: ElaboratorTask<R>,
    after: ContextView<R>,
    out: Result<Elaboration<R::Output>, ElaboratorError<R::Diagnostic>>,
    r: Result<Option<Publication<R>>, RunError<R::Diagnostic>>,
) -> bool {
    &&& rules.runs(before, after, out)
    &&& match out {
        Ok(result) => match r {
            Ok(Some(publication)) => publishes(after, task, result, Ok(publication)),
            Ok(None) => false,
            Err(RunError::Refused(refusal)) => publishes(after, task, result, Err(refusal)),
            Err(RunError::Rules(_)) => false,
        },
        Err(error) => r == Err::<Option<Publication<R>>, RunError<R::Diagnostic>>(
            RunError::Rules(error),
        ),
    }
}

/// The state in which a task is run.
pub open spec fn task_context<R: ElaboratorRole>(
    access: ScopeAccess,
    task: ElaboratorTask<R>,
    interpretation: Option<ParseCandidate<R::Ast>>,
) -> ContextView<R> {
    ContextView {
        task: Some(task),
        incoming: Some(task.incoming),
        node: Some(task.ast),
        ..fresh::<R>(
            access,
            task.input,
            match interpretation {
                Some(candidate) => seq![candidate],
                None => Seq::empty(),
            },
        )
    }
}

/// Runs the rules of a role.
pub struct ElaboratorNode<X> {
    pub rules: X,
}

impl<X> ElaboratorNode<X> {
    pub fn new(rules: X) -> (r: Self)
        ensures
            r.rules == rules,
    {
        ElaboratorNode { rules }
    }

    /// Runs the rules over the interpretations of a document. A document that
    /// was not parsed yet publishes nothing.
    pub fn root<R: ElaboratorRole>(
        &self,
        access: ScopeAccess,
        candidates: Option<Vec<ParseCandidate<R::Ast>>>,
        input: R::Input,
    ) -> (r: Result<Option<Publication<R>>, RunError<R::Diagnostic>>) where X: ElaboratorRules<R>
        ensures
            match candidates {
                None => r matches Ok(None),
                Some(list) => exists|
                    after: ContextView<R>,
                    out: Result<Elaboration<R::Output>, ElaboratorError<R::Diagnostic>>,
                | #[trigger]
                    root_ran(self.rules, fresh::<R>(access, input, list@), after, out, r),
            },
    {
        let candidates = match candidates {
            Some(candidates) => candidates,
            None => {
                return Ok(None);
            },
        };
        let ghost before = fresh::<R>(access, input, candidates@);
        let mut cx: ElaboratorCx<R> = ElaboratorCx::root(access, candidates, input);
        let out = self.rules.run(&mut cx);
        let ghost after = cx@;
        let ghost said = out;
        let r = match out {
            Ok(result) => match cx.finish_root(result) {
                Ok(found) => Ok(found),
                Err(refusal) => Err(RunError::Refused(refusal)),
            },
            Err(error) => Err(RunError::Rules(error)),
        };
        assert(root_ran(self.rules, before, after, said, r));
        r
    }

    /// Runs the rules over one node. A node that is not known publishes nothing.
    pub fn task<R: ElaboratorRole>(
        &self,
        access: ScopeAccess,
        task: ElaboratorTask<R>,
        known: bool,
        interpretation: Option<ParseCandidate<R::Ast>>,
    ) -> (r: Result<Option<Publication<R>>, RunError<R::Diagnostic>>) where X: ElaboratorRules<R>
        ensures
            !known ==> r matches Ok(None),
            known ==> exists|
                after: ContextView<R>,
                out: Result<Elaboration<R::Output>, ElaboratorError<R::Diagnostic>>,
            | #[trigger]
                task_ran(
                    self.rules,
                    task_context(access, task, interpretation),
                    task,
                    after,
                    out,
                    r,
                ),
    {
        if !known {
            return Ok(None);
        }
        let ghost before = task_context(access, task, interpretation);
        let again = task.copied();
        let mut cx: ElaboratorCx<R> = ElaboratorCx::task(access, task, interpretation);
        let out = self.rules.run(&mut cx);
        let ghost after = cx@;
        let ghost said = out;
        let r = match out {
            Ok(result) => match cx.publish(again, result) {
                Ok(publication) => Ok(Some(publication)),
                Err(refusal) => Err(RunError::Refused(refusal)),
            },
            Err(error) => Err(RunError::Rules(error)),
        };
        assert(task_ran(self.rules, before, task, after, said, r));
        r
    }
}

} // verus!
