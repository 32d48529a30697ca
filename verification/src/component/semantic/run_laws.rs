//! What a run of a rule schedules, tries and says.

use vstd::prelude::*;

use super::context::{
    is_first_of_product, place_of_product, rejected_before, rejected_in_turn, tried, tries,
    with_task, with_tasks, Attempt, ContextView, ParseCandidate,
};
use super::task::{
    all_rejected, digit, digits, nodes_of_all, rejection, rejections, AstKey, AstWalkField,
    ElaboratorError, ElaboratorRole, ElaboratorTask,
};
use crate::framework::scope::graph::Scope;

verus! {

/// Every node of a list gets a task, in its scope and with its input; those that
/// were scheduled stay in their places; nothing else is scheduled, and nothing
/// twice.
pub proof fn lemma_every_node_is_scheduled<R: ElaboratorRole>(
    v: ContextView<R>,
    nodes: Seq<AstKey>,
    incoming: Scope,
    input: R::Input,
)
    requires
        v.pending.no_duplicates(),
    ensures
        ({
            let w = with_tasks(v, nodes, incoming, input);
            &&& forall|k: int|
                0 <= k < nodes.len() ==> w.pending.contains(
                    ElaboratorTask { ast: #[trigger] nodes[k], incoming, input },
                )
            &&& v.pending.is_prefix_of(w.pending)
            &&& w.pending.no_duplicates()
            &&& forall|j: int|
                v.pending.len() <= j < w.pending.len() ==> {
                    &&& nodes.contains((#[trigger] w.pending[j]).ast)
                    &&& w.pending[j].incoming == incoming
                    &&& w.pending[j].input == input
                }
            &&& w == (ContextView { pending: w.pending, ..v })
        }),
    decreases nodes.len(),
{
    let w = with_tasks(v, nodes, incoming, input);
    if nodes.len() == 0 {
        assert(v.pending =~= v.pending.subrange(0, v.pending.len() as int));
    } else {
        let rest = nodes.drop_last();
        lemma_every_node_is_scheduled(v, rest, incoming, input);
        let before = with_tasks(v, rest, incoming, input);
        let task = ElaboratorTask { ast: nodes.last(), incoming, input };
        assert(w == with_task(before, task));
        assert forall|one: ElaboratorTask<R>| before.pending.contains(
            one,
        ) implies #[trigger] w.pending.contains(one) by {
            let k = before.pending.index_of(one);
            assert(w.pending[k] == one);
        }
        assert(w.pending.contains(task)) by {
            if !before.pending.contains(task) {
                assert(w.pending[before.pending.len() as int] == task);
            }
        }
        assert forall|k: int| 0 <= k < nodes.len() implies w.pending.contains(
            ElaboratorTask { ast: #[trigger] nodes[k], incoming, input },
        ) by {
            if k < rest.len() {
                assert(rest[k] == nodes[k]);
                assert(before.pending.contains(ElaboratorTask { ast: rest[k], incoming, input }));
            }
        }
        assert(v.pending =~= w.pending.subrange(0, v.pending.len() as int)) by {
            assert(v.pending =~= before.pending.subrange(0, v.pending.len() as int));
            assert forall|k: int| 0 <= k < v.pending.len() implies v.pending[k]
                == w.pending[k] by {
                assert(v.pending[k] == before.pending.subrange(0, v.pending.len() as int)[k]);
            }
        }
        assert forall|j: int| v.pending.len() <= j < w.pending.len() implies {
            &&& nodes.contains((#[trigger] w.pending[j]).ast)
            &&& w.pending[j].incoming == incoming
            &&& w.pending[j].input == input
        } by {
            if j < before.pending.len() {
                assert(w.pending[j] == before.pending[j]);
                let k = rest.index_of(before.pending[j].ast);
                assert(nodes[k] == before.pending[j].ast);
            } else {
                assert(nodes[nodes.len() - 1] == w.pending[j].ast);
            }
        }
        assert(w.pending.no_duplicates()) by {
            assert forall|i: int, j: int|
                0 <= i < j < w.pending.len() implies w.pending[i] != w.pending[j] by {
                assert(w.pending[i] == before.pending[i]);
                if j < before.pending.len() {
                    assert(w.pending[j] == before.pending[j]);
                } else {
                    assert(before.pending.contains(before.pending[i]));
                }
            }
        }
    }
}

/// Walking fields one after the other visits the nodes of the first ones, then
/// those of the others; a field alone gives its own nodes.
pub proof fn lemma_fields_are_walked_in_turn<T: AstWalkField>(
    first: Seq<T>,
    second: Seq<T>,
    field: T,
)
    ensures
        nodes_of_all(first + second) == nodes_of_all(first) + nodes_of_all(second),
        nodes_of_all(seq![field]) == field.nodes(),
        nodes_of_all(Seq::<T>::empty()) == Seq::<AstKey>::empty(),
    decreases second.len(),
{
    reveal_with_fuel(nodes_of_all, 2);
    assert(seq![field].drop_last() =~= Seq::<T>::empty());
    assert(nodes_of_all(seq![field]) =~= field.nodes());
    if second.len() == 0 {
        assert(first + second =~= first);
        assert(nodes_of_all(first) =~= nodes_of_all(first) + nodes_of_all(second));
    } else {
        lemma_fields_are_walked_in_turn(first, second.drop_last(), field);
        assert((first + second).drop_last() =~= first + second.drop_last());
        assert((first + second).last() == second.last());
        assert(nodes_of_all(first + second) =~= nodes_of_all(first) + nodes_of_all(second));
    }
}

/// Every node of every field is visited.
pub proof fn lemma_every_field_is_walked<T: AstWalkField>(fields: Seq<T>, i: int, j: int)
    requires
        0 <= i < fields.len(),
        0 <= j < fields[i].nodes().len(),
    ensures
        nodes_of_all(fields).contains(fields[i].nodes()[j]),
    decreases fields.len(),
{
    let rest = fields.drop_last();
    let before = nodes_of_all(rest);
    let all = nodes_of_all(fields);
    if i == fields.len() - 1 {
        assert(all[before.len() + j] == fields[i].nodes()[j]);
    } else {
        assert(rest[i] == fields[i]);
        lemma_every_field_is_walked(rest, i, j);
        let k = before.index_of(fields[i].nodes()[j]);
        assert(all[k] == fields[i].nodes()[j]);
    }
}

/// The number that digits stand for.
pub open spec fn number_of(text: Seq<char>) -> nat
    decreases text.len(),
{
    if text.len() == 0 {
        0
    } else {
        number_of(text.drop_last()) * 10 + (text.last() as nat - '0' as nat) as nat
    }
}

/// The digits of a number stand for it, none of them is anything but a digit,
/// and none leads in vain.
pub proof fn lemma_digits_read_back(n: nat)
    ensures
        number_of(digits(n)) == n,
        forall|k: int| 0 <= k < digits(n).len() ==> '0' <= #[trigger] digits(n)[k] <= '9',
        digits(n).len() > 0,
        n > 0 ==> digits(n)[0] != '0',
    decreases n,
{
    reveal_with_fuel(number_of, 2);
    if n < 10 {
        assert(digits(n).drop_last() =~= Seq::<char>::empty());
    } else {
        lemma_digits_read_back(n / 10);
        assert(digits(n).drop_last() =~= digits(n / 10));
        assert(digits(n).last() == digit(n % 10));
        assert(number_of(digits(n)) == (n / 10) * 10 + n % 10);
        assert forall|k: int| 0 <= k < digits(n).len() implies '0' <= #[trigger] digits(n)[k]
            <= '9' by {
            if k < digits(n / 10).len() {
                assert(digits(n)[k] == digits(n / 10)[k]);
            }
        }
        assert(digits(n)[0] == digits(n / 10)[0]);
    }
}

/// A text stands in another one, from a place on.
pub open spec fn stands_at(text: Seq<char>, part: Seq<char>, at: int) -> bool {
    0 <= at && at + part.len() <= text.len() && text.subrange(at, at + part.len()) == part
}

proof fn lemma_rejection_stands(products: Seq<usize>, reasons: Seq<Seq<char>>, k: int) -> (at: int)
    requires
        0 <= k < reasons.len() <= products.len(),
    ensures
        stands_at(rejections(products, reasons), rejection(products[k], reasons[k]), at),
    decreases reasons.len(),
{
    let n = reasons.len() - 1;
    let last = rejection(products[n], reasons.last());
    let all = rejections(products, reasons);
    if k == n {
        let at = all.len() - last.len();
        assert(all.subrange(at, all.len() as int) =~= last);
        at
    } else {
        let rest = reasons.drop_last();
        let before = rejections(products, rest);
        let at = lemma_rejection_stands(products, rest, k);
        let part = rejection(products[k], reasons[k]);
        assert(rest[k] == reasons[k]);
        assert(all =~= before + "; "@ + last);
        assert(all.subrange(at, at + part.len()) =~= before.subrange(at, at + part.len()));
        at
    }
}

/// The message for rejected interpretations names each product and says why it
/// was rejected.
pub proof fn lemma_every_rejection_is_told(
    products: Seq<usize>,
    reasons: Seq<Seq<char>>,
    k: int,
)
    requires
        0 <= k < reasons.len() <= products.len(),
    ensures
        exists|at: int| #[trigger]
            stands_at(
                all_rejected(products, reasons),
                "product "@ + digits(products[k] as nat) + ": "@ + reasons[k],
                at,
            ),
{
    let inner = lemma_rejection_stands(products, reasons, k);
    let lead = "every requested interpretation was rejected: "@;
    let whole = all_rejected(products, reasons);
    let part = "product "@ + digits(products[k] as nat) + ": "@ + reasons[k];
    assert(part == rejection(products[k], reasons[k]));
    let at = lead.len() + inner;
    assert(whole.subrange(at, at + part.len()) =~= rejections(products, reasons).subrange(
        inner,
        inner + part.len(),
    ));
    assert(stands_at(whole, part, at));
}

/// A product is found where some interpretation is of it: at the first of those.
pub proof fn lemma_product_is_found<A>(list: Seq<ParseCandidate<A>>, product: usize, i: int)
    requires
        0 <= i < list.len(),
        list[i].product == product,
    ensures
        ({
            let place = place_of_product(list, product);
            &&& place is Some
            &&& 0 <= place->Some_0 <= i
            &&& list[place->Some_0].product == product
            &&& forall|j: int|
                0 <= j < place->Some_0 ==> (#[trigger] list[j]).product != product
        }),
    decreases i,
{
    if forall|j: int| 0 <= j < i ==> (#[trigger] list[j]).product != product {
        assert(is_first_of_product(list, product, i));
        let place = choose|k: int| is_first_of_product(list, product, k);
        assert(is_first_of_product(list, product, place));
        assert(place_of_product(list, product) == Some(place));
        if place > i {
            assert(list[i].product != product);
        }
    } else {
        let j = choose|j: int| 0 <= j < i && (#[trigger] list[j]).product == product;
        lemma_product_is_found(list, product, j);
    }
}

/// A product that no interpretation is of is not found.
pub proof fn lemma_product_is_not_found<A>(list: Seq<ParseCandidate<A>>, product: usize)
    requires
        forall|i: int| 0 <= i < list.len() ==> (#[trigger] list[i]).product != product,
    ensures
        place_of_product(list, product) is None,
{
    if exists|i: int| is_first_of_product(list, product, i) {
        let i = choose|i: int| is_first_of_product(list, product, i);
        assert(list[i].product != product);
    }
}

/// An attempt with an interpretation never rejects it, whatever is awaited.
pub open spec fn never_rejected<R: ElaboratorRole, T, E, A: Attempt<R, T, E>>(
    attempt: A,
    v: ContextView<R>,
    candidate: ParseCandidate<R::Ast>,
) -> bool {
    forall|before: ContextView<R>, after: ContextView<R>, reason: E|
        before == (ContextView {
            node: Some(candidate.node),
            task: match v.incoming {
                Some(incoming) => Some(
                    ElaboratorTask { ast: candidate.node, incoming, input: v.input },
                ),
                None => v.task,
            },
            awaiting: before.awaiting,
            ..v
        }) ==> !#[trigger] attempt.gives(before, *candidate.value, after, Err::<T, E>(reason))
}

/// Where every product is known and one of them is never rejected, an
/// interpretation is taken.
pub proof fn lemma_accepted_interpretation_is_taken<
    R: ElaboratorRole,
    T,
    E: core::fmt::Display,
    A: Attempt<R, T, E>,
>(
    attempt: A,
    v: ContextView<R>,
    products: Seq<usize>,
    w: ContextView<R>,
    r: Result<T, ElaboratorError<R::Diagnostic>>,
    k: int,
    at: int,
)
    requires
        tried::<R, T, E, A>(attempt, v, products, w, r),
        0 <= k < products.len(),
        forall|i: int|
            0 <= i < products.len() ==> place_of_product(
                v.interpretations,
                #[trigger] products[i],
            ) is Some,
        is_first_of_product(v.interpretations, products[k], at),
        never_rejected::<R, T, E, A>(attempt, v, v.interpretations[at]),
    ensures
        r is Ok,
{
    let (waits, reasons) = choose|waits: Seq<bool>, reasons: Seq<E>| #[trigger]
        rejected_before::<R, T, E, A>(attempt, v, products, waits, reasons) && {
            let n = reasons.len() as int;
            let left = ContextView { awaiting: waits[n], ..v };
            match r {
                Ok(found) => true,
                Err(error) => n < products.len() ==> place_of_product(
                    v.interpretations,
                    products[n],
                ) is None,
            }
        };
    if r is Err {
        let n = reasons.len() as int;
        assert(n == products.len());
        assert(rejected_in_turn::<R, T, E, A>(attempt, v, products, waits, reasons, k));
        let after = choose|after: ContextView<R>| #[trigger]
            tries(attempt, v, products[k], waits[k], after, Err::<T, E>(reasons[k]))
                && waits[k + 1] == after.awaiting;
        let place = place_of_product(v.interpretations, products[k])->Some_0;
        assert(is_first_of_product(v.interpretations, products[k], place));
        if place < at {
            assert(v.interpretations[place].product != products[k]);
        }
        if at < place {
            assert(v.interpretations[at].product != products[k]);
        }
    }
}

/// A refusal leaves the run as it was, except for what is awaited.
pub proof fn lemma_refused_attempts_leave_nothing<
    R: ElaboratorRole,
    T,
    E: core::fmt::Display,
    A: Attempt<R, T, E>,
>(
    attempt: A,
    v: ContextView<R>,
    products: Seq<usize>,
    w: ContextView<R>,
    r: Result<T, ElaboratorError<R::Diagnostic>>,
)
    requires
        tried::<R, T, E, A>(attempt, v, products, w, r),
        r is Err,
    ensures
        w.task == v.task,
        w.node == v.node,
        w.declared == v.declared,
        w.data == v.data,
        w.edges == v.edges,
        w.lifecycles == v.lifecycles,
        w.requests == v.requests,
        w.diagnostics == v.diagnostics,
        w.pending == v.pending,
{
}

} // verus!
