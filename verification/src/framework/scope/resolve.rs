//! The resolution of paths through a scope graph.

use vstd::prelude::*;

use super::graph::{
    lemma_targets, observe_node, outgoing, payload_of, targets_of, GraphView, Scope, ScopeDomain,
    ScopeGraph, ScopeNode,
};
use super::path::{
    accepts_word, derivative_of, labels_of, lemma_derivative_accepts, lemma_gathered,
    lemma_nullable_accepts, nullable_of, occurrences, Datum, PathExpr, ScopePath,
};

verus! {

/// One way in which a path was resolved.
pub struct ResolutionPath<D: ScopeDomain> {
    pub scopes: Vec<Scope>,
    pub labels: Vec<D::Label>,
    pub data: D::ScopeData,
}

impl<D: ScopeDomain> ResolutionPath<D> {
    /// The data of the scope that was reached.
    pub fn data(&self) -> (r: &D::ScopeData)
        ensures
            *r == self.data,
    {
        &self.data
    }

    /// The data of the scope that was reached.
    pub fn into_data(self) -> (r: D::ScopeData)
        ensures
            r == self.data,
    {
        self.data
    }

    /// The scope that was reached.
    pub fn target_scope(&self) -> (r: Scope)
        requires
            self.scopes@.len() > 0,
        ensures
            r == self.scopes@.last(),
    {
        self.scopes[self.scopes.len() - 1]
    }

    /// A copy of the path.
    pub fn copied(&self) -> (r: Self)
        ensures
            r.scopes@ == self.scopes@,
            r.labels@ == self.labels@,
            r.data == self.data,
    {
        ResolutionPath {
            scopes: copy_list(&self.scopes),
            labels: copy_list(&self.labels),
            data: self.data.copied(),
        }
    }
}

/// A copy of a list.
pub fn copy_list<T: Datum>(list: &Vec<T>) -> (r: Vec<T>)
    ensures
        r@ == list@,
{
    let mut out: Vec<T> = Vec::new();
    let mut i: usize = 0;
    while i < list.len()
        invariant
            i <= list.len(),
            out@ == list@.take(i as int),
        decreases list.len() - i,
    {
        out.push(list[i].copied());
        assert(list@.take(i + 1) =~= list@.take(i as int).push(list@[i as int]));
        i += 1;
    }
    assert(list@.take(i as int) =~= list@);
    out
}

/// Whether two lists hold the same values in the same order.
pub fn same_list<T: Datum>(a: &Vec<T>, b: &Vec<T>) -> (r: bool)
    ensures
        r == (a@ == b@),
{
    if a.len() != b.len() {
        return false;
    }
    let mut i: usize = 0;
    while i < a.len()
        invariant
            i <= a.len(),
            a.len() == b.len(),
            forall|j: int| 0 <= j < i ==> a@[j] == b@[j],
        decreases a.len() - i,
    {
        if !a[i].same(&b[i]) {
            assert(a@[i as int] != b@[i as int]);
            return false;
        }
        i += 1;
    }
    assert(a@ =~= b@);
    true
}

/// What is left of an expression behind the edges of a word.
pub open spec fn residual<L>(e: PathExpr<L>, word: Seq<L>) -> PathExpr<L>
    decreases word.len(),
{
    if word.len() == 0 {
        e
    } else {
        derivative_of(residual(e, word.drop_last()), word.last())
    }
}

/// The walk from `start` along edges of the graph that follows the
/// expression, never ends in a dead one, and comes to no scope twice with the
/// same expression left.
pub open spec fn is_trail<D: ScopeDomain>(
    v: GraphView<D>,
    start: Scope,
    e: PathExpr<D::Label>,
    scopes: Seq<Scope>,
    labels: Seq<D::Label>,
) -> bool {
    &&& scopes.len() == labels.len() + 1
    &&& scopes[0] == start
    &&& forall|i: int| 0 <= i < labels.len() ==> #[trigger] is_step(v, e, scopes, labels, i)
    &&& forall|i: int, j: int|
        0 <= i < j < scopes.len() ==> #[trigger] states_differ(e, scopes, labels, i, j)
}

/// The walk takes an edge of the graph at place `i`.
pub open spec fn is_step<D: ScopeDomain>(
    v: GraphView<D>,
    e: PathExpr<D::Label>,
    scopes: Seq<Scope>,
    labels: Seq<D::Label>,
    i: int,
) -> bool {
    &&& v.edges.contains((scopes[i], labels[i], scopes[i + 1]))
    &&& !(residual(e, labels.take(i + 1)) is Empty)
}

/// The walk is not in the same state at two places.
pub open spec fn states_differ<L>(
    e: PathExpr<L>,
    scopes: Seq<Scope>,
    labels: Seq<L>,
    i: int,
    j: int,
) -> bool {
    scopes[i] != scopes[j] || residual(e, labels.take(i)) != residual(e, labels.take(j))
}

/// The walk ends at a scope where the expression accepts.
pub open spec fn is_accepted_trail<D: ScopeDomain>(
    v: GraphView<D>,
    start: Scope,
    e: PathExpr<D::Label>,
    scopes: Seq<Scope>,
    labels: Seq<D::Label>,
) -> bool {
    &&& is_trail(v, start, e, scopes, labels)
    &&& nullable_of(residual(e, labels))
    &&& payload_of(v, scopes.last()) matches Some(ScopeNode::Scope(_))
}

/// The walk is an answer: it ends at an accepted scope that the caller takes.
pub open spec fn is_answer<D: ScopeDomain, F: Fn(&ScopeNode<D>) -> bool>(
    v: GraphView<D>,
    start: Scope,
    e: PathExpr<D::Label>,
    accepts: F,
    scopes: Seq<Scope>,
    labels: Seq<D::Label>,
) -> bool {
    &&& is_accepted_trail(v, start, e, scopes, labels)
    &&& call_ensures(accepts, (&payload_of(v, scopes.last())->Some_0,), true)
}

/// No walk is longer than some bound.
pub open spec fn trails_end<D: ScopeDomain>(
    v: GraphView<D>,
    start: Scope,
    e: PathExpr<D::Label>,
) -> bool {
    exists|bound: nat| #[trigger] bounds_trails(v, start, e, bound)
}

pub open spec fn bounds_trails<D: ScopeDomain>(
    v: GraphView<D>,
    start: Scope,
    e: PathExpr<D::Label>,
    bound: nat,
) -> bool {
    forall|scopes: Seq<Scope>, labels: Seq<D::Label>|
        #[trigger] is_trail(v, start, e, scopes, labels) ==> labels.len() <= bound
}

/// A length that no walk exceeds.
pub open spec fn longest<D: ScopeDomain>(
    v: GraphView<D>,
    start: Scope,
    e: PathExpr<D::Label>,
) -> nat {
    choose|bound: nat| #[trigger] bounds_trails(v, start, e, bound)
}

/// The walk starts with another one.
pub open spec fn extends_trail<L>(
    scopes: Seq<Scope>,
    labels: Seq<L>,
    from_scopes: Seq<Scope>,
    from_labels: Seq<L>,
) -> bool {
    from_scopes.is_prefix_of(scopes) && from_labels.is_prefix_of(labels)
}

/// The walk is among the answers.
pub open spec fn is_found<D: ScopeDomain>(
    answers: Seq<ResolutionPath<D>>,
    scopes: Seq<Scope>,
    labels: Seq<D::Label>,
) -> bool {
    exists|i: int|
        0 <= i < answers.len() && (#[trigger] answers[i]).scopes@ == scopes && answers[i].labels@
            == labels
}

/// Every answer carries the data of the scope that it reached, and none is
/// there twice.
pub open spec fn answers_stand<D: ScopeDomain>(
    v: GraphView<D>,
    answers: Seq<ResolutionPath<D>>,
) -> bool {
    &&& forall|i: int|
        0 <= i < answers.len() ==> (#[trigger] answers[i]).scopes@.len() > 0 && payload_of(
            v,
            answers[i].scopes@.last(),
        ) == Some(ScopeNode::<D>::Scope(answers[i].data))
    &&& forall|i: int, j: int|
        0 <= i < j < answers.len() ==> (#[trigger] answers[i]).scopes@ != (
        #[trigger] answers[j]).scopes@ || answers[i].labels@ != answers[j].labels@
}

/// A label that an expression does not name leaves nothing of it.
pub proof fn lemma_other_label_is_dead<L>(e: PathExpr<L>, label: L)
    requires
        !occurrences(e).contains(label),
    ensures
        derivative_of(e, label) is Empty,
    decreases e,
{
    let all = occurrences(e);
    match e {
        PathExpr::Label(l) => {
            assert(all[0] == l);
        },
        PathExpr::Or(a, b) => {
            lemma_not_in_parts(occurrences(*a), occurrences(*b), label);
            lemma_other_label_is_dead(*a, label);
            lemma_other_label_is_dead(*b, label);
        },
        PathExpr::Then(a, b) => {
            lemma_not_in_parts(occurrences(*a), occurrences(*b), label);
            lemma_other_label_is_dead(*a, label);
            lemma_other_label_is_dead(*b, label);
        },
        PathExpr::Star(inner) => {
            lemma_other_label_is_dead(*inner, label);
        },
        _ => {},
    }
}

proof fn lemma_not_in_parts<L>(a: Seq<L>, b: Seq<L>, x: L)
    requires
        !(a + b).contains(x),
    ensures
        !a.contains(x),
        !b.contains(x),
{
    if a.contains(x) {
        let i = a.index_of(x);
        assert((a + b)[i] == x);
    }
    if b.contains(x) {
        let i = b.index_of(x);
        assert((a + b)[a.len() + i] == x);
    }
}

/// A walk that goes on by one edge to a state that it was not in is a walk.
proof fn lemma_trail_step<D: ScopeDomain>(
    v: GraphView<D>,
    start: Scope,
    e: PathExpr<D::Label>,
    scopes: Seq<Scope>,
    labels: Seq<D::Label>,
    label: D::Label,
    target: Scope,
)
    requires
        is_trail(v, start, e, scopes, labels),
        v.edges.contains((scopes.last(), label, target)),
        !(derivative_of(residual(e, labels), label) is Empty),
        forall|i: int|
            0 <= i < scopes.len() ==> (#[trigger] scopes[i] != target || residual(e, labels.take(i))
                != derivative_of(residual(e, labels), label)),
    ensures
        is_trail(v, start, e, scopes.push(target), labels.push(label)),
        residual(e, labels.push(label)) == derivative_of(residual(e, labels), label),
{
    let s = scopes.push(target);
    let l = labels.push(label);
    assert(l.drop_last() =~= labels);
    assert(l.take(l.len() as int) =~= l);
    assert forall|i: int| 0 <= i < l.len() implies #[trigger] is_step(v, e, s, l, i) by {
        if i < labels.len() {
            assert(is_step(v, e, scopes, labels, i));
            assert(l.take(i + 1) =~= labels.take(i + 1));
        }
    }
    assert forall|i: int, j: int| 0 <= i < j < s.len() implies #[trigger] states_differ(
        e,
        s,
        l,
        i,
        j,
    ) by {
        assert(l.take(i) =~= labels.take(i));
        if j < scopes.len() {
            assert(states_differ(e, scopes, labels, i, j));
            assert(l.take(j) =~= labels.take(j));
        } else {
            assert(scopes[i] == s[i]);
        }
    }
}

/// The next step of a walk beyond its start.
proof fn lemma_trail_goes_on<D: ScopeDomain>(
    v: GraphView<D>,
    start: Scope,
    e: PathExpr<D::Label>,
    scopes: Seq<Scope>,
    labels: Seq<D::Label>,
    n: int,
)
    requires
        is_trail(v, start, e, scopes, labels),
        0 <= n < labels.len(),
    ensures
        v.edges.contains((scopes[n], labels[n], scopes[n + 1])),
        !(derivative_of(residual(e, labels.take(n)), labels[n]) is Empty),
        labels_of(residual(e, labels.take(n))).contains(labels[n]),
        forall|i: int|
            0 <= i <= n ==> (#[trigger] scopes[i] != scopes[n + 1] || residual(e, labels.take(i))
                != derivative_of(residual(e, labels.take(n)), labels[n])),
{
    assert(is_step(v, e, scopes, labels, n));
    assert(labels.take(n + 1).drop_last() =~= labels.take(n));
    assert(residual(e, labels.take(n + 1)) == derivative_of(
        residual(e, labels.take(n)),
        labels[n],
    ));
    let left = residual(e, labels.take(n));
    if !occurrences(left).contains(labels[n]) {
        lemma_other_label_is_dead(left, labels[n]);
    }
    lemma_gathered(Seq::empty(), occurrences(left));
    assert forall|i: int| 0 <= i <= n implies (#[trigger] scopes[i] != scopes[n + 1] || residual(
        e,
        labels.take(i),
    ) != derivative_of(left, labels[n])) by {
        assert(states_differ(e, scopes, labels, i, n + 1));
    }
}

/// Whether the walk is among the answers.
fn already_found<D: ScopeDomain>(
    answers: &Vec<ResolutionPath<D>>,
    scopes: &Vec<Scope>,
    labels: &Vec<D::Label>,
) -> (r: bool)
    ensures
        r == is_found(answers@, scopes@, labels@),
{
    let mut i: usize = 0;
    while i < answers.len()
        invariant
            i <= answers.len(),
            forall|j: int|
                0 <= j < i ==> (#[trigger] answers@[j]).scopes@ != scopes@ || answers@[j].labels@
                    != labels@,
        decreases answers.len() - i,
    {
        if same_list(&answers[i].scopes, scopes) && same_list(&answers[i].labels, labels) {
            return true;
        }
        i += 1;
    }
    false
}

/// The walk in progress: where it is, how it came there, and what was left of
/// the expression at each scope.
pub struct Walk<D: ScopeDomain> {
    scopes: Vec<Scope>,
    labels: Vec<D::Label>,
    left: Vec<PathExpr<D::Label>>,
}

impl<D: ScopeDomain> Walk<D> {
    pub closed spec fn stands(&self, e: PathExpr<D::Label>) -> bool {
        &&& self.left@.len() == self.scopes@.len()
        &&& self.scopes@.len() == self.labels@.len() + 1
        &&& forall|i: int|
            0 <= i < self.left@.len() ==> #[trigger] self.left@[i] == residual(
                e,
                self.labels@.take(i),
            )
    }

    /// Whether the walk was at the scope with the expression left.
    fn was_at(&self, scope: Scope, left: &PathExpr<D::Label>) -> (r: bool)
        requires
            self.left@.len() == self.scopes@.len(),
        ensures
            r == exists|i: int|
                0 <= i < self.scopes@.len() && #[trigger] self.scopes@[i] == scope && self.left@[i]
                    == *left,
    {
        let mut i: usize = 0;
        while i < self.scopes.len()
            invariant
                i <= self.scopes@.len(),
                self.left@.len() == self.scopes@.len(),
                forall|j: int|
                    0 <= j < i ==> #[trigger] self.scopes@[j] != scope || self.left@[j] != *left,
            decreases self.scopes@.len() - i,
        {
            if self.scopes[i].id == scope.id && self.left[i].same(left) {
                assert(self.scopes@[i as int] == scope);
                return true;
            }
            i += 1;
        }
        false
    }
}

/// The walk is among the new answers: it goes on from the walk in progress by
/// one of the first `labels_done` labels, or by the next label to one of the
/// first `targets_done` targets.
pub open spec fn goes_through<L>(
    scopes: Seq<Scope>,
    labels: Seq<L>,
    n: int,
    next_labels: Seq<L>,
    labels_done: int,
    targets: Seq<Scope>,
    targets_done: int,
) -> bool {
    ||| labels.len() == n
    ||| labels.len() > n && next_labels.take(labels_done).contains(labels[n])
    ||| labels.len() > n && labels_done < next_labels.len() && labels[n] == next_labels[labels_done]
        && targets.take(targets_done).contains(scopes[n + 1])
}

/// A longer walk goes on from another one by its next label and scope.
proof fn lemma_extends_by_one<L>(
    scopes: Seq<Scope>,
    labels: Seq<L>,
    ws: Seq<Scope>,
    wl: Seq<L>,
    label: L,
    target: Scope,
)
    requires
        scopes.len() == labels.len() + 1,
        ws.len() == wl.len() + 1,
    ensures
        extends_trail(scopes, labels, ws.push(target), wl.push(label)) <==> extends_trail(
            scopes,
            labels,
            ws,
            wl,
        ) && labels.len() > wl.len() && labels[wl.len() as int] == label
            && scopes[wl.len() as int + 1] == target,
{
    let n = wl.len() as int;
    let s1 = ws.push(target);
    let l1 = wl.push(label);
    if extends_trail(scopes, labels, s1, l1) {
        assert(s1 =~= scopes.take(s1.len() as int));
        assert(l1 =~= labels.take(l1.len() as int));
        assert(l1[n] == label && s1[n + 1] == target);
        assert(ws =~= scopes.take(ws.len() as int)) by {
            assert forall|i: int| 0 <= i < ws.len() implies ws[i] == scopes[i] by {
                assert(s1[i] == scopes.take(s1.len() as int)[i]);
            }
        }
        assert(wl =~= labels.take(wl.len() as int)) by {
            assert forall|i: int| 0 <= i < wl.len() implies wl[i] == labels[i] by {
                assert(l1[i] == labels.take(l1.len() as int)[i]);
            }
        }
    }
    if extends_trail(scopes, labels, ws, wl) && labels.len() > n && labels[n] == label && scopes[n
        + 1] == target {
        assert(ws =~= scopes.take(ws.len() as int));
        assert(wl =~= labels.take(n));
        assert(s1 =~= scopes.take(s1.len() as int)) by {
            assert forall|i: int| 0 <= i < ws.len() implies s1[i] == scopes[i] by {
                assert(ws[i] == scopes.take(ws.len() as int)[i]);
            }
        }
        assert(l1 =~= labels.take(l1.len() as int)) by {
            assert forall|i: int| 0 <= i < n implies l1[i] == labels[i] by {
                assert(wl[i] == labels.take(n)[i]);
            }
        }
    }
}

/// No walk goes on by a label that leaves nothing, or to a state that it was
/// in.
proof fn lemma_no_trail_on<D: ScopeDomain>(
    v: GraphView<D>,
    start: Scope,
    e: PathExpr<D::Label>,
    ws: Seq<Scope>,
    wl: Seq<D::Label>,
    label: D::Label,
    target: Scope,
)
    requires
        ws.len() == wl.len() + 1,
        derivative_of(residual(e, wl), label) is Empty || exists|i: int|
            0 <= i < ws.len() && #[trigger] ws[i] == target && residual(e, wl.take(i))
                == derivative_of(residual(e, wl), label),
    ensures
        forall|s: Seq<Scope>, l: Seq<D::Label>| #[trigger]
            is_trail(v, start, e, s, l) && extends_trail(s, l, ws, wl) && l.len() > wl.len()
                ==> !(l[wl.len() as int] == label && s[wl.len() as int + 1] == target),
{
    let n = wl.len() as int;
    assert forall|s: Seq<Scope>, l: Seq<D::Label>| #[trigger]
        is_trail(v, start, e, s, l) && extends_trail(s, l, ws, wl) && l.len() > n implies !(l[n]
        == label && s[n + 1] == target) by {
        lemma_trail_goes_on(v, start, e, s, l, n);
        assert(l.take(n) =~= wl);
        if l[n] == label && s[n + 1] == target {
            let i = choose|i: int|
                0 <= i < ws.len() && #[trigger] ws[i] == target && residual(e, wl.take(i))
                    == derivative_of(residual(e, wl), label);
            assert(ws[i] == s[i]);
            assert(wl.take(i) =~= l.take(i));
        }
    }
}

/// What is found once one more answer was added.
proof fn lemma_found_push<D: ScopeDomain>(
    answers: Seq<ResolutionPath<D>>,
    more: ResolutionPath<D>,
    s: Seq<Scope>,
    l: Seq<D::Label>,
)
    ensures
        is_found(answers.push(more), s, l) == (is_found(answers, s, l) || (more.scopes@ == s
            && more.labels@ == l)),
{
    let all = answers.push(more);
    if is_found(answers, s, l) {
        let i = choose|i: int|
            0 <= i < answers.len() && (#[trigger] answers[i]).scopes@ == s && answers[i].labels@
                == l;
        assert(all[i].scopes@ == s);
    }
    if more.scopes@ == s && more.labels@ == l {
        assert(all[answers.len() as int].scopes@ == s);
    }
    if is_found(all, s, l) {
        let i = choose|i: int|
            0 <= i < all.len() && (#[trigger] all[i]).scopes@ == s && all[i].labels@ == l;
        if i < answers.len() {
            assert(answers[i].scopes@ == s);
        }
    }
}

/// Adds the walk in progress to the answers where it is one.
fn note_answer<D: ScopeDomain, F: Fn(&ScopeNode<D>) -> bool>(
    graph: &ScopeGraph<D>,
    start: Scope,
    expression: &PathExpr<D::Label>,
    accepts: &F,
    walk: &Walk<D>,
    answers: &mut Vec<ResolutionPath<D>>,
)
    requires
        graph@.wf(),
        forall|node: ScopeNode<D>| #[trigger] call_requires(*accepts, (&node,)),
        forall|node: ScopeNode<D>, a: bool, b: bool|
            #![trigger call_ensures(*accepts, (&node,), a), call_ensures(*accepts, (&node,), b)]
            call_ensures(*accepts, (&node,), a) && call_ensures(*accepts, (&node,), b) ==> a == b,
        walk.stands(*expression),
        is_trail(graph@, start, *expression, walk.scopes@, walk.labels@),
        answers_stand(graph@, old(answers)@),
    ensures
        answers_stand(graph@, final(answers)@),
        forall|s: Seq<Scope>, l: Seq<D::Label>| #[trigger]
            is_found(final(answers)@, s, l) <==> is_found(old(answers)@, s, l) || (is_answer(
                graph@,
                start,
                *expression,
                *accepts,
                s,
                l,
            ) && s == walk.scopes@ && l == walk.labels@),
{
    let ghost before = answers@;
    proof {
        assert(walk.labels@.take(walk.labels@.len() as int) =~= walk.labels@);
    }
    let at = walk.scopes[walk.scopes.len() - 1];
    if !walk.left[walk.left.len() - 1].nullable() {
        return ;
    }
    let node = match observe_node(graph, at) {
        Some(node) => node,
        None => {
            return ;
        },
    };
    let taken: bool = accepts(node);
    assert(payload_of(graph@, walk.scopes@.last()) == Some(*node));
    if !taken {
        return ;
    }
    match node {
        ScopeNode::Scope(data) => {
            assert(is_answer(graph@, start, *expression, *accepts, walk.scopes@, walk.labels@));
            if !already_found(answers, &walk.scopes, &walk.labels) {
                let found = ResolutionPath {
                    scopes: copy_list(&walk.scopes),
                    labels: copy_list(&walk.labels),
                    data: data.copied(),
                };
                answers.push(found);
                proof {
                    assert forall|s: Seq<Scope>, l: Seq<D::Label>| #[trigger]
                        is_found(answers@, s, l) <==> is_found(before, s, l) || (s == walk.scopes@
                            && l == walk.labels@) by {
                        lemma_found_push(before, found, s, l);
                    }
                }
            }
        },
        _ => {},
    }
}

/// Looks at everything that the walk in progress leads to.
#[verifier::rlimit(60)]
fn explore<D: ScopeDomain, F: Fn(&ScopeNode<D>) -> bool>(
    graph: &ScopeGraph<D>,
    start: Scope,
    expression: &PathExpr<D::Label>,
    accepts: &F,
    walk: &mut Walk<D>,
    answers: &mut Vec<ResolutionPath<D>>,
)
    requires
        graph@.wf(),
        trails_end(graph@, start, *expression),
        forall|node: ScopeNode<D>| #[trigger] call_requires(*accepts, (&node,)),
        forall|node: ScopeNode<D>, a: bool, b: bool|
            #![trigger call_ensures(*accepts, (&node,), a), call_ensures(*accepts, (&node,), b)]
            call_ensures(*accepts, (&node,), a) && call_ensures(*accepts, (&node,), b) ==> a == b,
        old(walk).stands(*expression),
        is_trail(graph@, start, *expression, old(walk).scopes@, old(walk).labels@),
        answers_stand(graph@, old(answers)@),
    ensures
        final(walk).scopes@ == old(walk).scopes@,
        final(walk).labels@ == old(walk).labels@,
        final(walk).stands(*expression),
        answers_stand(graph@, final(answers)@),
        forall|s: Seq<Scope>, l: Seq<D::Label>| #[trigger]
            is_found(final(answers)@, s, l) <==> is_found(old(answers)@, s, l) || (is_answer(
                graph@,
                start,
                *expression,
                *accepts,
                s,
                l,
            ) && extends_trail(s, l, old(walk).scopes@, old(walk).labels@)),
    decreases longest(graph@, start, *expression) - old(walk).labels@.len(),
{
    let ghost v = graph@;
    let ghost e = *expression;
    let ghost ws = walk.scopes@;
    let ghost wl = walk.labels@;
    let ghost n = wl.len() as int;
    let ghost before = answers@;
    let ghost here = residual(e, wl);
    let ghost bound = longest(v, start, e);
    proof {
        assert(bounds_trails(v, start, e, bound));
        assert(wl.take(n) =~= wl);
    }
    note_answer(graph, start, expression, accepts, walk, answers);
    let at = walk.scopes[walk.scopes.len() - 1];
    let left = walk.left[walk.left.len() - 1].copied();
    let next = left.labels();
    proof {
        assert forall|s: Seq<Scope>, l: Seq<D::Label>| #[trigger]
            is_found(answers@, s, l) <==> is_found(before, s, l) || (is_answer(
                v,
                start,
                e,
                *accepts,
                s,
                l,
            ) && extends_trail(s, l, ws, wl) && goes_through(
                s,
                l,
                n,
                next@,
                0,
                Seq::empty(),
                0,
            )) by {
            assert(next@.take(0) =~= Seq::empty());
            assert(Seq::<Scope>::empty().take(0) =~= Seq::empty());
            if extends_trail(s, l, ws, wl) && l.len() == n && s.len() == n + 1 {
                assert(s =~= ws);
                assert(l =~= wl);
            }
        }
    }
    let mut j: usize = 0;
    while j < next.len()
        invariant
            j <= next.len(),
            graph@.wf(),
            trails_end(graph@, start, *expression),
            forall|node: ScopeNode<D>| #[trigger] call_requires(*accepts, (&node,)),
            forall|node: ScopeNode<D>, a: bool, b: bool|
                #![trigger call_ensures(*accepts, (&node,), a), call_ensures(*accepts, (&node,), b)]
                call_ensures(*accepts, (&node,), a) && call_ensures(*accepts, (&node,), b) ==> a
                    == b,
            v == graph@,
            e == *expression,
            here == residual(e, wl),
            left == here,
            n == wl.len(),
            ws == old(walk).scopes@,
            wl == old(walk).labels@,
            walk.scopes@ == ws,
            walk.labels@ == wl,
            walk.stands(e),
            at == ws.last(),
            bounds_trails(v, start, e, bound),
            bound == longest(v, start, e),
            is_trail(v, start, e, ws, wl),
            answers_stand(v, answers@),
            forall|s: Seq<Scope>, l: Seq<D::Label>| #[trigger]
                is_found(answers@, s, l) <==> is_found(before, s, l) || (is_answer(
                    v,
                    start,
                    e,
                    *accepts,
                    s,
                    l,
                ) && extends_trail(s, l, ws, wl) && goes_through(
                    s,
                    l,
                    n,
                    next@,
                    j as int,
                    Seq::empty(),
                    0,
                )),
        decreases next.len() - j,
    {
        let label = &next[j];
        let rest = left.derivative(label);
        let targets = outgoing(graph, at, label);
        let ghost entry = answers@;
        proof {
            assert forall|s: Seq<Scope>, l: Seq<D::Label>| #[trigger]
                is_found(answers@, s, l) <==> is_found(before, s, l) || (is_answer(
                    v,
                    start,
                    e,
                    *accepts,
                    s,
                    l,
                ) && extends_trail(s, l, ws, wl) && goes_through(
                    s,
                    l,
                    n,
                    next@,
                    j as int,
                    targets@,
                    0,
                )) by {
                assert(targets@.take(0) =~= Seq::empty());
                assert(Seq::<Scope>::empty().take(0) =~= Seq::empty());
            }
        }
        let mut k: usize = 0;
        while k < targets.len()
            invariant
                j < next.len(),
                k <= targets.len(),
                *label == next@[j as int],
                rest == derivative_of(here, *label),
                targets@ == targets_of(graph@.edges, at, *label),
                graph@.wf(),
                trails_end(graph@, start, *expression),
                forall|node: ScopeNode<D>| #[trigger] call_requires(*accepts, (&node,)),
                forall|node: ScopeNode<D>, a: bool, b: bool|
                    #![trigger call_ensures(*accepts, (&node,), a), call_ensures(*accepts, (&node,), b)]
                    call_ensures(*accepts, (&node,), a) && call_ensures(*accepts, (&node,), b) ==> a
                        == b,
                v == graph@,
                e == *expression,
                here == residual(e, wl),
                n == wl.len(),
                ws == old(walk).scopes@,
                wl == old(walk).labels@,
                walk.scopes@ == ws,
                walk.labels@ == wl,
                walk.stands(e),
                at == ws.last(),
                bounds_trails(v, start, e, bound),
                bound == longest(v, start, e),
                is_trail(v, start, e, ws, wl),
                answers_stand(v, answers@),
                forall|s: Seq<Scope>, l: Seq<D::Label>| #[trigger]
                    is_found(answers@, s, l) <==> is_found(before, s, l) || (is_answer(
                        v,
                        start,
                        e,
                        *accepts,
                        s,
                        l,
                    ) && extends_trail(s, l, ws, wl) && goes_through(
                        s,
                        l,
                        n,
                        next@,
                        j as int,
                        targets@,
                        k as int,
                    )),
            decreases targets.len() - k,
        {
            let target = targets[k];
            let ghost seen = answers@;
            let dead = match rest {
                PathExpr::Empty => true,
                _ => false,
            };
            let again = walk.was_at(target, &rest);
            if !dead && !again {
                proof {
                    assert(targets@.contains(target));
                    lemma_targets(v.edges, at, *label, target);
                    assert forall|i: int| 0 <= i < ws.len() implies (#[trigger] ws[i] != target
                        || residual(e, wl.take(i)) != derivative_of(residual(e, wl), *label)) by {
                        assert(walk.scopes@[i] == ws[i]);
                        assert(walk.left@[i] == residual(e, walk.labels@.take(i)));
                    }
                    lemma_trail_step(v, start, e, ws, wl, *label, target);
                }
                walk.scopes.push(target);
                walk.labels.push(label.copied());
                walk.left.push(rest.copied());
                proof {
                    assert(walk.scopes@ == ws.push(target));
                    assert(walk.labels@ == wl.push(*label));
                    assert forall|i: int| 0 <= i < walk.left@.len() implies #[trigger] walk.left@[i]
                        == residual(e, walk.labels@.take(i)) by {
                        if i <= n {
                            assert(walk.labels@.take(i) =~= wl.take(i));
                        } else {
                            assert(walk.labels@.take(i) =~= walk.labels@);
                        }
                    }
                    assert(walk.labels@.len() <= bound);
                }
                explore(graph, start, expression, accepts, walk, answers);
                walk.scopes.pop();
                walk.labels.pop();
                walk.left.pop();
                proof {
                    assert(walk.scopes@ =~= ws);
                    assert(walk.labels@ =~= wl);
                    assert forall|i: int| 0 <= i < walk.left@.len() implies #[trigger] walk.left@[i]
                        == residual(e, walk.labels@.take(i)) by {
                        assert(wl.push(*label).take(i) =~= wl.take(i));
                    }
                }
            } else {
                proof {
                    if again {
                        let i = choose|i: int|
                            0 <= i < walk.scopes@.len() && #[trigger] walk.scopes@[i] == target
                                && walk.left@[i] == rest;
                        assert(ws[i] == target);
                        assert(walk.left@[i] == residual(e, walk.labels@.take(i)));
                    }
                    lemma_no_trail_on(v, start, e, ws, wl, *label, target);
                }
            }
            proof {
                assert forall|s: Seq<Scope>, l: Seq<D::Label>| #[trigger]
                    is_found(answers@, s, l) <==> is_found(before, s, l) || (is_answer(
                        v,
                        start,
                        e,
                        *accepts,
                        s,
                        l,
                    ) && extends_trail(s, l, ws, wl) && goes_through(
                        s,
                        l,
                        n,
                        next@,
                        j as int,
                        targets@,
                        k + 1,
                    )) by {
                    assert(is_found(seen, s, l) <==> is_found(before, s, l) || (is_answer(
                        v,
                        start,
                        e,
                        *accepts,
                        s,
                        l,
                    ) && extends_trail(s, l, ws, wl) && goes_through(
                        s,
                        l,
                        n,
                        next@,
                        j as int,
                        targets@,
                        k as int,
                    )));
                    if s.len() == l.len() + 1 {
                        lemma_extends_by_one(s, l, ws, wl, *label, target);
                        assert(targets@.take(k + 1) =~= targets@.take(k as int).push(target));
                        lemma_contains_push(targets@.take(k as int), target, s[n + 1]);
                    }
                }
            }
            k += 1;
        }
        proof {
            assert forall|s: Seq<Scope>, l: Seq<D::Label>| #[trigger]
                is_found(answers@, s, l) <==> is_found(before, s, l) || (is_answer(
                    v,
                    start,
                    e,
                    *accepts,
                    s,
                    l,
                ) && extends_trail(s, l, ws, wl) && goes_through(
                    s,
                    l,
                    n,
                    next@,
                    j + 1,
                    Seq::empty(),
                    0,
                )) by {
                assert(Seq::<Scope>::empty().take(0) =~= Seq::empty());
                assert(targets@.take(k as int) =~= targets@);
                assert(next@.take(j + 1) =~= next@.take(j as int).push(*label));
                if is_answer(v, start, e, *accepts, s, l) && extends_trail(s, l, ws, wl) && l.len()
                    > n {
                    lemma_contains_push(next@.take(j as int), *label, l[n]);
                    lemma_trail_goes_on(v, start, e, s, l, n);
                    assert(s[n] == ws[n]);
                    lemma_targets(v.edges, at, l[n], s[n + 1]);
                }
            }
        }
        j += 1;
    }
    proof {
        assert forall|s: Seq<Scope>, l: Seq<D::Label>| #[trigger]
            is_found(answers@, s, l) <==> is_found(before, s, l) || (is_answer(
                v,
                start,
                e,
                *accepts,
                s,
                l,
            ) && extends_trail(s, l, ws, wl)) by {
            if is_answer(v, start, e, *accepts, s, l) && extends_trail(s, l, ws, wl) && l.len()
                > n {
                lemma_trail_goes_on(v, start, e, s, l, n);
                assert(l.take(n) =~= wl);
                assert(next@.take(j as int) =~= next@);
            }
        }
    }
}

proof fn lemma_contains_push<T>(list: Seq<T>, more: T, x: T)
    ensures
        list.push(more).contains(x) == (list.contains(x) || x == more),
{
    let all = list.push(more);
    if list.contains(x) {
        let i = list.index_of(x);
        assert(all[i] == x);
    }
    if x == more {
        assert(all[list.len() as int] == x);
    }
    if all.contains(x) {
        let i = all.index_of(x);
        if i < list.len() {
            assert(list[i] == x);
        }
    }
}

/// Resolves a path from a scope: every walk along edges of the graph that the
/// path accepts, that comes to no scope twice with the same path left, and
/// that ends at a scope which `accepts` takes.
pub fn resolve<D: ScopeDomain, F: Fn(&ScopeNode<D>) -> bool>(
    graph: &ScopeGraph<D>,
    start: Scope,
    path: ScopePath<D::Label>,
    accepts: F,
) -> (r: Vec<ResolutionPath<D>>)
    requires
        graph@.wf(),
        trails_end(graph@, start, path@),
        forall|node: ScopeNode<D>| #[trigger] call_requires(accepts, (&node,)),
        forall|node: ScopeNode<D>, a: bool, b: bool|
            #![trigger call_ensures(accepts, (&node,), a), call_ensures(accepts, (&node,), b)]
            call_ensures(accepts, (&node,), a) && call_ensures(accepts, (&node,), b) ==> a == b,
    ensures
        answers_stand(graph@, r@),
        forall|s: Seq<Scope>, l: Seq<D::Label>| #[trigger]
            is_found(r@, s, l) <==> is_answer(graph@, start, path@, accepts, s, l),
{
    let ghost e = path@;
    let expression = path.into_path();
    let mut walk: Walk<D> = Walk { scopes: Vec::new(), labels: Vec::new(), left: Vec::new() };
    walk.scopes.push(start);
    walk.left.push(expression.copied());
    let mut answers: Vec<ResolutionPath<D>> = Vec::new();
    let ghost ws = walk.scopes@;
    let ghost wl = walk.labels@;
    proof {
        assert(wl.take(0) =~= wl);
    }
    explore(graph, start, &expression, &accepts, &mut walk, &mut answers);
    proof {
        assert forall|s: Seq<Scope>, l: Seq<D::Label>| #[trigger]
            is_found(answers@, s, l) <==> is_answer(graph@, start, e, accepts, s, l) by {
            if is_answer(graph@, start, e, accepts, s, l) {
                assert(ws =~= s.take(1));
                assert(wl =~= l.take(0));
            }
        }
    }
    answers
}

// ---------------------------------------------------------------------------
// Laws
// ---------------------------------------------------------------------------

/// What is left behind a word accepts exactly what the expression accepts
/// behind that word.
pub proof fn lemma_residual_accepts<L>(e: PathExpr<L>, word: Seq<L>, more: Seq<L>)
    ensures
        accepts_word(residual(e, word), more) == accepts_word(e, word + more),
    decreases word.len(),
{
    if word.len() == 0 {
        assert(word + more =~= more);
    } else {
        let front = word.drop_last();
        let last = seq![word.last()];
        lemma_derivative_accepts(residual(e, front), word.last(), more);
        lemma_residual_accepts(e, front, last + more);
        assert(front + (last + more) =~= word + more);
    }
}

/// The labels of every answer are a word of the path.
pub proof fn lemma_answers_follow_the_path<D: ScopeDomain>(
    v: GraphView<D>,
    start: Scope,
    e: PathExpr<D::Label>,
    scopes: Seq<Scope>,
    labels: Seq<D::Label>,
)
    requires
        is_accepted_trail(v, start, e, scopes, labels),
    ensures
        accepts_word(e, labels),
{
    lemma_nullable_accepts(residual(e, labels));
    lemma_residual_accepts(e, labels, Seq::empty());
    assert(labels + Seq::empty() =~= labels);
}

/// No walk is missed: one along edges of the graph from the start that comes to
/// no scope twice, whose labels are a word of the path, and that ends at a scope
/// with data is accepted, however long it is.
pub proof fn lemma_every_walk_is_accepted<D: ScopeDomain>(
    v: GraphView<D>,
    start: Scope,
    e: PathExpr<D::Label>,
    scopes: Seq<Scope>,
    labels: Seq<D::Label>,
)
    requires
        scopes.len() == labels.len() + 1,
        scopes[0] == start,
        forall|i: int|
            0 <= i < labels.len() ==> v.edges.contains(
                (scopes[i], #[trigger] labels[i], scopes[i + 1]),
            ),
        scopes.no_duplicates(),
        accepts_word(e, labels),
        payload_of(v, scopes.last()) matches Some(ScopeNode::Scope(_)),
    ensures
        is_accepted_trail(v, start, e, scopes, labels),
{
    assert forall|i: int| 0 <= i < labels.len() implies #[trigger] is_step(
        v,
        e,
        scopes,
        labels,
        i,
    ) by {
        assert(v.edges.contains((scopes[i], labels[i], scopes[i + 1])));
        let word = labels.take(i + 1);
        let more = labels.skip(i + 1);
        assert(word + more =~= labels);
        lemma_residual_accepts(e, word, more);
    }
    lemma_nullable_accepts(residual(e, labels));
    lemma_residual_accepts(e, labels, Seq::empty());
    assert(labels + Seq::empty() =~= labels);
}

/// Where every edge leads to a node of lower rank, every resolution ends.
pub proof fn lemma_ranked_trails_end<D: ScopeDomain>(
    v: GraphView<D>,
    start: Scope,
    e: PathExpr<D::Label>,
    rank: spec_fn(Scope) -> nat,
)
    requires
        forall|i: int|
            0 <= i < v.edges.len() ==> rank((#[trigger] v.edges[i]).2) < rank(v.edges[i].0),
    ensures
        trails_end(v, start, e),
{
    let bound = rank(start);
    assert forall|scopes: Seq<Scope>, labels: Seq<D::Label>| #[trigger]
        is_trail(v, start, e, scopes, labels) implies labels.len() <= bound by {
        lemma_rank_sinks(v, start, e, scopes, labels, rank, labels.len() as int);
    }
    assert(bounds_trails(v, start, e, bound));
}

proof fn lemma_rank_sinks<D: ScopeDomain>(
    v: GraphView<D>,
    start: Scope,
    e: PathExpr<D::Label>,
    scopes: Seq<Scope>,
    labels: Seq<D::Label>,
    rank: spec_fn(Scope) -> nat,
    n: int,
)
    requires
        is_trail(v, start, e, scopes, labels),
        0 <= n <= labels.len(),
        forall|i: int|
            0 <= i < v.edges.len() ==> rank((#[trigger] v.edges[i]).2) < rank(v.edges[i].0),
    ensures
        rank(scopes[n]) + n <= rank(start),
    decreases n,
{
    if n > 0 {
        lemma_rank_sinks(v, start, e, scopes, labels, rank, n - 1);
        assert(is_step(v, e, scopes, labels, n - 1));
        let step = (scopes[n - 1], labels[n - 1], scopes[n]);
        let i = v.edges.index_of(step);
        assert(v.edges[i] == step);
    }
}

/// The expression is in a finite family that no edge leads out of.
pub open spec fn is_closed_family<L>(family: Set<PathExpr<L>>, e: PathExpr<L>) -> bool {
    &&& family.finite()
    &&& family.contains(e)
    &&& forall|x: PathExpr<L>, l: L|
        family.contains(x) ==> (#[trigger] derivative_of(x, l)) is Empty || family.contains(
            derivative_of(x, l),
        )
}

/// Where only finitely many expressions can be left, every resolution ends,
/// whatever the graph.
pub proof fn lemma_closed_family_trails_end<D: ScopeDomain>(
    v: GraphView<D>,
    start: Scope,
    e: PathExpr<D::Label>,
    family: Set<PathExpr<D::Label>>,
)
    requires
        is_closed_family(family, e),
    ensures
        trails_end(v, start, e),
{
    let places = v.edges.map_values(|edge: (Scope, D::Label, Scope)| edge.2).push(start).to_set();
    vstd::seq_lib::seq_to_set_is_finite(
        v.edges.map_values(|edge: (Scope, D::Label, Scope)| edge.2).push(start),
    );
    let states = pairs_of(places, family);
    lemma_pairs_finite(places, family);
    let bound = states.len();
    assert forall|scopes: Seq<Scope>, labels: Seq<D::Label>| #[trigger]
        is_trail(v, start, e, scopes, labels) implies labels.len() <= bound by {
        let list = Seq::new(
            scopes.len(),
            |i: int| (scopes[i], residual(e, labels.take(i))),
        );
        assert forall|i: int, j: int| 0 <= i < list.len() && 0 <= j < list.len() && i
            != j implies list[i] != list[j] by {
            if i < j {
                assert(states_differ(e, scopes, labels, i, j));
            } else {
                assert(states_differ(e, scopes, labels, j, i));
            }
        }
        assert(list.no_duplicates());
        list.unique_seq_to_set();
        assert forall|x: (Scope, PathExpr<D::Label>)| list.to_set().contains(
            x,
        ) implies states.contains(x) by {
            let i = choose|i: int| 0 <= i < list.len() && list[i] == x;
            lemma_state_in_family(v, start, e, scopes, labels, family, i);
        }
        vstd::set_lib::lemma_len_subset(list.to_set(), states);
    }
    assert(bounds_trails(v, start, e, bound));
}

proof fn lemma_state_in_family<D: ScopeDomain>(
    v: GraphView<D>,
    start: Scope,
    e: PathExpr<D::Label>,
    scopes: Seq<Scope>,
    labels: Seq<D::Label>,
    family: Set<PathExpr<D::Label>>,
    i: int,
)
    requires
        is_closed_family(family, e),
        is_trail(v, start, e, scopes, labels),
        0 <= i < scopes.len(),
    ensures
        family.contains(residual(e, labels.take(i))),
        v.edges.map_values(|edge: (Scope, D::Label, Scope)| edge.2).push(start).to_set().contains(
            scopes[i],
        ),
    decreases i,
{
    let targets = v.edges.map_values(|edge: (Scope, D::Label, Scope)| edge.2);
    let all = targets.push(start);
    if i == 0 {
        assert(labels.take(0) =~= Seq::empty());
        assert(all[targets.len() as int] == start);
    } else {
        lemma_state_in_family(v, start, e, scopes, labels, family, i - 1);
        assert(is_step(v, e, scopes, labels, i - 1));
        assert(labels.take(i).drop_last() =~= labels.take(i - 1));
        let left = residual(e, labels.take(i - 1));
        assert(residual(e, labels.take(i)) == derivative_of(left, labels[i - 1]));
        let step = (scopes[i - 1], labels[i - 1], scopes[i]);
        let k = v.edges.index_of(step);
        assert(v.edges[k] == step);
        assert(all[k] == scopes[i]);
    }
}

spec fn pairs_of<A, B>(a: Set<A>, b: Set<B>) -> Set<(A, B)> {
    Set::new(|p: (A, B)| a.contains(p.0) && b.contains(p.1))
}

proof fn lemma_pairs_finite<A, B>(a: Set<A>, b: Set<B>)
    requires
        a.finite(),
        b.finite(),
    ensures
        pairs_of(a, b).finite(),
    decreases a.len(),
{
    if a.len() == 0 {
        assert(a =~= Set::empty());
        assert(pairs_of(a, b) =~= Set::empty());
    } else {
        let x = a.choose();
        lemma_pairs_finite(a.remove(x), b);
        let with_x = b.map(|y: B| (x, y));
        b.lemma_map_finite(|y: B| (x, y));
        assert forall|p: (A, B)| pairs_of(a, b).contains(p) <==> pairs_of(a.remove(x), b).union(
            with_x,
        ).contains(p) by {
            if a.contains(p.0) && b.contains(p.1) && p.0 == x {
                assert(with_x.contains((|y: B| (x, y))(p.1)));
            }
        }
        assert(pairs_of(a, b) =~= pairs_of(a.remove(x), b).union(with_x));
    }
}

/// Any number of edges under one label leave only themselves, so their
/// resolution ends on every graph.
pub proof fn lemma_zero_or_more_is_closed<L>(label: L)
    ensures
        is_closed_family(
            set![PathExpr::Star(Box::new(PathExpr::Label(label)))],
            PathExpr::Star(Box::new(PathExpr::Label(label))),
        ),
{
    let e = PathExpr::Star(Box::new(PathExpr::Label(label)));
    assert forall|l: L| (#[trigger] derivative_of(e, l)) is Empty || derivative_of(e, l) == e by {
        assert(derivative_of(PathExpr::Label(label), l) is Epsilon || derivative_of(
            PathExpr::Label(label),
            l,
        ) is Empty);
    }
}

} // verus!
