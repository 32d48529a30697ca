//! Shapes of graph nodes: a node's shape is built from the shapes of the nodes
//! it depends on. A node that depends on itself has no shape.

use std::collections::{HashMap, HashSet};
use vstd::prelude::*;

use crate::shape::{views, Shape, ShapeView};

verus! {

/// A graph whose nodes get their shapes from the nodes they depend on.
pub trait ShapeGraph: Sized {
    /// What the graph says, apart from what was computed on it.
    type Graph;

    spec fn graph(&self) -> Self::Graph;

    /// The graph and what was computed on it agree.
    spec fn inv(&self) -> bool;

    /// Node ids lie below this number.
    spec fn bound(graph: Self::Graph) -> nat;

    /// What a node depends on; nothing where it cannot have a shape.
    spec fn deps(graph: Self::Graph, id: usize) -> Option<Seq<usize>>;

    /// The shape of a node over the shapes of what it depends on.
    spec fn build(graph: Self::Graph, id: usize, kids: Seq<ShapeView>) -> ShapeView;

    proof fn lemma_bounded(graph: Self::Graph, id: usize)
        ensures
            Self::deps(graph, id) is Some ==> id < Self::bound(graph),
    ;

    fn exec_deps(&mut self, id: usize) -> (r: Option<Vec<usize>>)
        requires
            old(self).inv(),
        ensures
            final(self).inv(),
            final(self).graph() == old(self).graph(),
            match r {
                Some(list) => Self::deps(old(self).graph(), id) == Some(list@),
                None => Self::deps(old(self).graph(), id) is None,
            },
    ;

    fn exec_build(&mut self, id: usize, kids: Vec<Shape>) -> (r: Shape)
        requires
            old(self).inv(),
            Self::deps(old(self).graph(), id) is Some,
            Self::deps(old(self).graph(), id)->Some_0.len() == kids@.len(),
            forall|i: int| 0 <= i < kids@.len() ==> (#[trigger] kids@[i]).wf(),
        ensures
            final(self).inv(),
            final(self).graph() == old(self).graph(),
            r.wf(),
            r.view() == Self::build(old(self).graph(), id, views(kids@)),
    ;
}

/// The shape of a node whose dependencies reach less than `fuel` deep.
pub open spec fn shape_at<S: ShapeGraph>(graph: S::Graph, id: usize, fuel: nat) -> Option<ShapeView>
    decreases fuel, 0nat,
{
    if fuel == 0 {
        None
    } else {
        match S::deps(graph, id) {
            None => None,
            Some(list) => match shapes_at::<S>(graph, list, list.len(), (fuel - 1) as nat) {
                None => None,
                Some(kids) => Some(S::build(graph, id, kids)),
            },
        }
    }
}

/// The shapes of the first `n` nodes of a list.
pub open spec fn shapes_at<S: ShapeGraph>(
    graph: S::Graph,
    list: Seq<usize>,
    n: nat,
    fuel: nat,
) -> Option<Seq<ShapeView>>
    decreases fuel, n + 1,
    when n <= list.len()
{
    if n == 0 {
        Some(Seq::empty())
    } else {
        match (
            shapes_at::<S>(graph, list, (n - 1) as nat, fuel),
            shape_at::<S>(graph, list[n - 1], fuel),
        ) {
            (Some(kids), Some(kid)) => Some(kids.push(kid)),
            _ => None,
        }
    }
}

/// The node has a shape: its dependencies end.
#[verifier::opaque]
pub open spec fn has_shape<S: ShapeGraph>(graph: S::Graph, id: usize) -> bool {
    exists|fuel: nat| #[trigger] shape_at::<S>(graph, id, fuel) is Some
}

/// How deep the dependencies of a node with a shape reach.
pub open spec fn depth<S: ShapeGraph>(graph: S::Graph, id: usize) -> nat {
    choose|fuel: nat|
        #[trigger] shape_at::<S>(graph, id, fuel) is Some && forall|less: nat|
            less < fuel ==> #[trigger] shape_at::<S>(graph, id, less) is None
}

/// The shape of a node that has one.
#[verifier::opaque]
pub open spec fn shape_of<S: ShapeGraph>(graph: S::Graph, id: usize) -> ShapeView {
    shape_at::<S>(graph, id, depth::<S>(graph, id))->Some_0
}

/// More fuel does not change a shape.
pub proof fn lemma_fuel<S: ShapeGraph>(graph: S::Graph, id: usize, fuel: nat, more: nat)
    requires
        fuel <= more,
        shape_at::<S>(graph, id, fuel) is Some,
    ensures
        shape_at::<S>(graph, id, more) == shape_at::<S>(graph, id, fuel),
    decreases fuel, 0nat,
{
    let list = S::deps(graph, id)->Some_0;
    lemma_list_fuel::<S>(graph, list, list.len(), (fuel - 1) as nat, (more - 1) as nat);
}

proof fn lemma_list_fuel<S: ShapeGraph>(
    graph: S::Graph,
    list: Seq<usize>,
    n: nat,
    fuel: nat,
    more: nat,
)
    requires
        n <= list.len(),
        fuel <= more,
        shapes_at::<S>(graph, list, n, fuel) is Some,
    ensures
        shapes_at::<S>(graph, list, n, more) == shapes_at::<S>(graph, list, n, fuel),
    decreases fuel, n + 1,
{
    if n > 0 {
        lemma_list_fuel::<S>(graph, list, (n - 1) as nat, fuel, more);
        lemma_fuel::<S>(graph, list[n - 1], fuel, more);
    }
}

/// A node with a shape has a least depth at which it has one.
pub proof fn lemma_depth<S: ShapeGraph>(graph: S::Graph, id: usize, fuel: nat)
    requires
        shape_at::<S>(graph, id, fuel) is Some,
    ensures
        shape_at::<S>(graph, id, depth::<S>(graph, id)) is Some,
        depth::<S>(graph, id) <= fuel,
        shape_at::<S>(graph, id, fuel) == Some(shape_of::<S>(graph, id)),
    decreases fuel,
{
    reveal(has_shape);
    reveal(shape_of);
    if exists|less: nat| less < fuel && #[trigger] shape_at::<S>(graph, id, less) is Some {
        let less = choose|less: nat|
            less < fuel && #[trigger] shape_at::<S>(graph, id, less) is Some;
        lemma_depth::<S>(graph, id, less);
        lemma_fuel::<S>(graph, id, less, fuel);
    } else {
        assert(shape_at::<S>(graph, id, fuel) is Some && forall|less: nat|
            less < fuel ==> #[trigger] shape_at::<S>(graph, id, less) is None);
        let least = depth::<S>(graph, id);
        assert(shape_at::<S>(graph, id, least) is Some);
        if least > fuel {
            assert(shape_at::<S>(graph, id, fuel) is None);
        }
        lemma_fuel::<S>(graph, id, least, fuel);
    }
}

/// The shapes of a list, each taken alone.
proof fn lemma_list_parts<S: ShapeGraph>(graph: S::Graph, list: Seq<usize>, n: nat, fuel: nat)
    requires
        n <= list.len(),
        shapes_at::<S>(graph, list, n, fuel) is Some,
    ensures
        shapes_at::<S>(graph, list, n, fuel)->Some_0.len() == n,
        forall|i: int|
            0 <= i < n ==> shape_at::<S>(graph, #[trigger] list[i], fuel) == Some(
                shapes_at::<S>(graph, list, n, fuel)->Some_0[i],
            ),
    decreases n,
{
    if n > 0 {
        lemma_list_parts::<S>(graph, list, (n - 1) as nat, fuel);
    }
}

/// What a node with a shape depends on has a shape, and reaches less deep.
pub proof fn lemma_dependency<S: ShapeGraph>(graph: S::Graph, id: usize, i: int)
    requires
        has_shape::<S>(graph, id),
        S::deps(graph, id) is Some,
        0 <= i < S::deps(graph, id)->Some_0.len(),
    ensures
        has_shape::<S>(graph, S::deps(graph, id)->Some_0[i]),
        depth::<S>(graph, S::deps(graph, id)->Some_0[i]) < depth::<S>(graph, id),
{
    reveal(has_shape);
    reveal(shape_of);
    let fuel = choose|fuel: nat| #[trigger] shape_at::<S>(graph, id, fuel) is Some;
    lemma_depth::<S>(graph, id, fuel);
    let least = depth::<S>(graph, id);
    let list = S::deps(graph, id)->Some_0;
    lemma_list_parts::<S>(graph, list, list.len(), (least - 1) as nat);
    assert(shape_at::<S>(graph, list[i], (least - 1) as nat) is Some);
    lemma_depth::<S>(graph, list[i], (least - 1) as nat);
}

/// The shapes that the nodes of a list have.
pub open spec fn shapes_of<S: ShapeGraph>(graph: S::Graph, list: Seq<usize>) -> Seq<ShapeView> {
    list.map_values(|id: usize| shape_of::<S>(graph, id))
}

proof fn lemma_list_built<S: ShapeGraph>(graph: S::Graph, list: Seq<usize>, n: nat) -> (fuel: nat)
    requires
        n <= list.len(),
        forall|i: int| 0 <= i < n ==> has_shape::<S>(graph, #[trigger] list[i]),
    ensures
        shapes_at::<S>(graph, list, n, fuel) == Some(shapes_of::<S>(graph, list).take(n as int)),
    decreases n,
{
    reveal(has_shape);
    reveal(shape_of);
    let all = shapes_of::<S>(graph, list);
    if n == 0 {
        assert(all.take(0) =~= Seq::<ShapeView>::empty());
        0
    } else {
        let before = lemma_list_built::<S>(graph, list, (n - 1) as nat);
        let last = list[n - 1];
        let own = lemma_some_fuel::<S>(graph, last);
        let fuel = if before < own {
            own
        } else {
            before
        };
        lemma_list_fuel::<S>(graph, list, (n - 1) as nat, before, fuel);
        lemma_fuel::<S>(graph, last, own, fuel);
        lemma_depth::<S>(graph, last, fuel);
        assert(all[n - 1] == shape_of::<S>(graph, last));
        assert(all.take(n as int) =~= all.take(n - 1).push(all[n - 1]));
        fuel
    }
}

/// Some fuel that a node with a shape makes do with.
proof fn lemma_some_fuel<S: ShapeGraph>(graph: S::Graph, id: usize) -> (fuel: nat)
    requires
        has_shape::<S>(graph, id),
    ensures
        shape_at::<S>(graph, id, fuel) is Some,
{
    reveal(has_shape);
    reveal(shape_of);
    choose|fuel: nat| #[trigger] shape_at::<S>(graph, id, fuel) is Some
}

/// A node whose dependencies have shapes has the shape built from them.
pub proof fn lemma_built<S: ShapeGraph>(graph: S::Graph, id: usize)
    requires
        S::deps(graph, id) is Some,
        forall|i: int|
            0 <= i < S::deps(graph, id)->Some_0.len() ==> has_shape::<S>(
                graph,
                #[trigger] S::deps(graph, id)->Some_0[i],
            ),
    ensures
        has_shape::<S>(graph, id),
        shape_of::<S>(graph, id) == S::build(
            graph,
            id,
            shapes_of::<S>(graph, S::deps(graph, id)->Some_0),
        ),
{
    reveal(has_shape);
    reveal(shape_of);
    let list = S::deps(graph, id)->Some_0;
    let fuel = lemma_list_built::<S>(graph, list, list.len());
    assert(shapes_of::<S>(graph, list).take(list.len() as int) =~= shapes_of::<S>(graph, list));
    assert(shape_at::<S>(graph, id, fuel + 1) is Some);
    lemma_depth::<S>(graph, id, fuel + 1);
}

/// A node without dependencies to offer has no shape.
pub proof fn lemma_no_deps<S: ShapeGraph>(graph: S::Graph, id: usize)
    requires
        S::deps(graph, id) is None,
    ensures
        !has_shape::<S>(graph, id),
{
    reveal(has_shape);
    reveal(shape_of);
}

/// Every remembered shape is the shape of its node.
#[verifier::opaque]
pub open spec fn memo_wf<S: ShapeGraph>(graph: S::Graph, memo: Map<usize, Shape>) -> bool {
    forall|id: usize|
        #[trigger] memo.dom().contains(id) ==> memo[id].wf() && has_shape::<S>(graph, id)
            && memo[id].view() == shape_of::<S>(graph, id)
}

/// What a remembered shape says.
pub proof fn lemma_remembered<S: ShapeGraph>(
    graph: S::Graph,
    memo: Map<usize, Shape>,
    id: usize,
)
    requires
        memo_wf::<S>(graph, memo),
        memo.dom().contains(id),
    ensures
        memo[id].wf(),
        has_shape::<S>(graph, id),
        memo[id].view() == shape_of::<S>(graph, id),
{
    reveal(memo_wf);
}

/// Remembering the shape of one more node.
proof fn lemma_remember<S: ShapeGraph>(
    graph: S::Graph,
    before: Map<usize, Shape>,
    after: Map<usize, Shape>,
    id: usize,
)
    requires
        memo_wf::<S>(graph, before),
        after == before.insert(id, after[id]),
        after[id].wf(),
        has_shape::<S>(graph, id),
        after[id].view() == shape_of::<S>(graph, id),
    ensures
        memo_wf::<S>(graph, after),
{
    reveal(memo_wf);
    assert forall|x: usize| #[trigger] after.dom().contains(x) implies after[x].wf() && has_shape::<
        S,
    >(graph, x) && after[x].view() == shape_of::<S>(graph, x) by {
        if x != id {
            assert(before.dom().contains(x));
        }
    }
}

/// An entry of the work stack: a node, and whether it was expanded.
#[derive(Clone, Copy, Debug, PartialEq, Eq, Structural)]
pub struct Visit {
    pub id: usize,
    pub expanded: bool,
}

/// What holds of the work stack while the shape of `root` is computed: all of it
/// is needed for the root, what lies above an expanded node reaches less deep
/// than it, and what an expanded node depends on is remembered or lies above
/// it.
#[verifier::opaque]
spec fn stack_wf<S: ShapeGraph>(
    graph: S::Graph,
    root: usize,
    work: Seq<Visit>,
    memo: Map<usize, Shape>,
    active: Set<usize>,
) -> bool {
    &&& forall|i: int|
        0 <= i < work.len() ==> (has_shape::<S>(graph, root) ==> has_shape::<S>(
            graph,
            (#[trigger] work[i]).id,
        ))
    &&& forall|i: int, j: int|
        0 <= i < j < work.len() && (#[trigger] work[i]).expanded ==> (has_shape::<S>(graph, root)
            ==> depth::<S>(graph, (#[trigger] work[j]).id) < depth::<S>(graph, work[i].id))
    &&& forall|i: int|
        0 <= i < work.len() && (#[trigger] work[i]).expanded ==> S::deps(
            graph,
            work[i].id,
        ) is Some
    &&& forall|i: int, k: int|
        #![trigger work[i], S::deps(graph, work[i].id)->Some_0[k]]
        0 <= i < work.len() && work[i].expanded && 0 <= k < S::deps(
            graph,
            work[i].id,
        )->Some_0.len() ==> memo.dom().contains(S::deps(graph, work[i].id)->Some_0[k]) || exists|
            j: int,
        |
            i < j < work.len() && (#[trigger] work[j]).id == S::deps(graph, work[i].id)->Some_0[k]
    &&& forall|id: usize|
        #[trigger] active.contains(id) ==> memo.dom().contains(id) || exists|i: int|
            0 <= i < work.len() && (#[trigger] work[i]).expanded && work[i].id == id
    &&& memo.dom().contains(root) || exists|i: int|
        0 <= i < work.len() && (#[trigger] work[i]).id == root
}

/// The node ids below the bound that were neither remembered nor expanded.
spec fn unvisited(bound: nat, memo: Map<usize, Shape>, active: Set<usize>) -> Set<int> {
    vstd::set_lib::set_int_range(0, bound as int).filter(
        |i: int|
            !memo.dom().contains(i as usize) && !active.contains(i as usize),
    )
}

proof fn lemma_unvisited_finite(bound: nat, memo: Map<usize, Shape>, active: Set<usize>)
    ensures
        unvisited(bound, memo, active).finite(),
{
    vstd::set_lib::lemma_int_range(0, bound as int);
    vstd::set_lib::set_int_range(0, bound as int).lemma_len_filter(
        |i: int| !memo.dom().contains(i as usize) && !active.contains(i as usize),
    );
}

/// The remembered shapes of the nodes of a list.
fn recall<S: ShapeGraph>(
    Ghost(graph): Ghost<S::Graph>,
    list: &Vec<usize>,
    memo: &HashMap<usize, Shape>,
) -> (kids: Vec<Shape>)
    requires
        memo_wf::<S>(graph, memo@),
        forall|i: int| 0 <= i < list@.len() ==> memo@.dom().contains(#[trigger] list@[i]),
    ensures
        views(kids@) == shapes_of::<S>(graph, list@),
        kids@.len() == list@.len(),
        forall|i: int| 0 <= i < kids@.len() ==> (#[trigger] kids@[i]).wf(),
        forall|i: int| 0 <= i < list@.len() ==> has_shape::<S>(graph, #[trigger] list@[i]),
{
    broadcast use vstd::std_specs::hash::group_hash_axioms;

    let mut kids: Vec<Shape> = Vec::new();
    let mut index: usize = 0;
    while index < list.len()
        invariant
            index <= list@.len(),
            memo_wf::<S>(graph, memo@),
            forall|i: int| 0 <= i < list@.len() ==> memo@.dom().contains(#[trigger] list@[i]),
            kids@.len() == index,
            forall|i: int| 0 <= i < index ==> (#[trigger] kids@[i]).wf(),
            forall|i: int|
                0 <= i < index ==> (#[trigger] kids@[i]).view() == shape_of::<S>(graph, list@[i]),
        decreases list@.len() - index,
    {
        broadcast use vstd::std_specs::hash::group_hash_axioms;

        let child: usize = list[index];
        assert(memo@.dom().contains(list@[index as int]));
        proof {
            lemma_remembered::<S>(graph, memo@, child);
        }
        match memo.get(&child) {
            Some(shape) => {
                kids.push(shape.clone());
            },
            None => {},
        }
        index += 1;
    }
    proof {
        assert forall|i: int| 0 <= i < list@.len() implies has_shape::<S>(
            graph,
            #[trigger] list@[i],
        ) by {
            lemma_remembered::<S>(graph, memo@, list@[i]);
        }
    }
    assert(views(kids@) =~= shapes_of::<S>(graph, list@));
    kids
}

/// Puts the dependencies of the expanded top entry on the stack, last first.
/// Returns false where one of them is already being expanded.
fn push_children<S: ShapeGraph>(
    Ghost(graph): Ghost<S::Graph>,
    Ghost(root): Ghost<usize>,
    current: usize,
    list: &Vec<usize>,
    work: &mut Vec<Visit>,
    memo: &HashMap<usize, Shape>,
    active: &HashSet<usize>,
) -> (r: bool)
    requires
        S::deps(graph, current) == Some(list@),
        old(work)@.len() > 0,
        partly_open::<S>(
            graph,
            root,
            old(work)@,
            memo@,
            active@,
            current,
            old(work)@.len() - 1,
            list@.len() as int,
        ),
    ensures
        r ==> stack_wf::<S>(graph, root, final(work)@, memo@, active@),
        !r ==> !has_shape::<S>(graph, root),
{
    broadcast use vstd::std_specs::hash::group_hash_axioms;

    let ghost top = work@.len() - 1;
    let mut index: usize = list.len();
    while index > 0
        invariant
            index <= list@.len(),
            S::deps(graph, current) == Some(list@),
            partly_open::<S>(graph, root, work@, memo@, active@, current, top, index as int),
        decreases index,
    {
        broadcast use vstd::std_specs::hash::group_hash_axioms;

        index = index - 1;
        let child: usize = list[index];
        if !memo.contains_key(&child) {
            if active.contains(&child) {
                proof {
                    lemma_cycle_below::<S>(
                        graph,
                        root,
                        work@,
                        memo@,
                        active@,
                        current,
                        top,
                        index as int,
                    );
                }
                return false;
            }
            let ghost before = work@;
            work.push(Visit { id: child, expanded: false });
            proof {
                lemma_child_pushed::<S>(
                    graph,
                    root,
                    before,
                    work@,
                    memo@,
                    active@,
                    current,
                    top,
                    index as int,
                );
            }
        } else {
            proof {
                lemma_child_known::<S>(
                    graph,
                    root,
                    work@,
                    memo@,
                    active@,
                    current,
                    top,
                    index as int,
                );
            }
        }
    }
    proof {
        reveal(stack_wf);
        reveal(partly_open);
    }
    true
}

/// The memo grew from `memo0` by exactly the nodes that `fresh` lists behind
/// `fresh0`.
#[verifier::opaque]
pub open spec fn grown(
    memo0: Map<usize, Shape>,
    memo: Map<usize, Shape>,
    fresh0: Seq<usize>,
    fresh: Seq<usize>,
) -> bool {
    &&& memo0.submap_of(memo)
    &&& fresh0.is_prefix_of(fresh)
    &&& forall|x: usize|
        #[trigger] memo.dom().contains(x) <==> memo0.dom().contains(x) || fresh.skip(
            fresh0.len() as int,
        ).contains(x)
    &&& forall|i: int|
        fresh0.len() <= i < fresh.len() ==> !memo0.dom().contains(#[trigger] fresh[i])
}

/// The shape of a node, by depth-first search with an explicit stack. Shapes
/// are remembered in `memo`; `fresh` lists the nodes that were added to it.
#[verifier::rlimit(40)]
pub fn shape_key<S: ShapeGraph>(
    graph: &mut S,
    id: usize,
    memo: &mut HashMap<usize, Shape>,
    fresh: &mut Vec<usize>,
) -> (r: Option<Shape>)
    requires
        old(graph).inv(),
        memo_wf::<S>(old(graph).graph(), old(memo)@),
    ensures
        final(graph).inv(),
        final(graph).graph() == old(graph).graph(),
        memo_wf::<S>(old(graph).graph(), final(memo)@),
        grown(old(memo)@, final(memo)@, old(fresh)@, final(fresh)@),
        match r {
            Some(shape) => {
                &&& has_shape::<S>(old(graph).graph(), id)
                &&& shape.wf()
                &&& shape.view() == shape_of::<S>(old(graph).graph(), id)
                &&& final(memo)@.dom().contains(id)
            },
            None => !has_shape::<S>(old(graph).graph(), id),
        },
{
    broadcast use vstd::std_specs::hash::group_hash_axioms;

    let ghost g = graph.graph();
    let ghost memo0 = memo@;
    let ghost fresh0 = fresh@;
    proof {
        reveal(grown);
        assert(fresh@.skip(fresh0.len() as int) =~= Seq::<usize>::empty());
        assert(grown(memo0, memo@, fresh0, fresh@));
        if memo@.dom().contains(id) {
            lemma_remembered::<S>(g, memo@, id);
        }
    }
    match memo.get(&id) {
        Some(shape) => {
            return Some(shape.clone());
        },
        None => {},
    }
    let mut work: Vec<Visit> = Vec::new();
    let mut active: HashSet<usize> = HashSet::new();
    work.push(Visit { id, expanded: false });
    proof {
        lemma_start::<S>(g, id, work@, memo@, active@);
    }
    while work.len() > 0
        invariant
            g == old(graph).graph(),
            memo0 == old(memo)@,
            fresh0 == old(fresh)@,
            graph.inv(),
            graph.graph() == g,
            memo_wf::<S>(g, memo@),
            grown(memo0, memo@, fresh0, fresh@),
            stack_wf::<S>(g, id, work@, memo@, active@),
        decreases unvisited(S::bound(g), memo@, active@).len(), work@.len(),
    {
        broadcast use vstd::std_specs::hash::group_hash_axioms;

        let ghost before = work@;
        let ghost memo1 = memo@;
        let ghost active1 = active@;
        let visit = work.pop().unwrap();
        let current: usize = visit.id;
        assert(before.last() == visit);
        assert(work@ =~= before.drop_last());
        if memo.contains_key(&current) {
            active.remove(&current);
            proof {
                lemma_popped::<S>(g, id, before, memo1, memo@, active1);
                lemma_active_smaller::<S>(g, id, work@, memo@, active1, active@);
                lemma_unvisited_kept(S::bound(g), memo1, memo@, active1, active@);
            }
            continue;
        }
        let list = match graph.exec_deps(current) {
            Some(list) => list,
            None => {
                proof {
                    lemma_no_deps::<S>(g, current);
                    lemma_top_needed::<S>(g, id, before, memo@, active1);
                }
                return None;
            },
        };
        if visit.expanded {
            proof {
                lemma_top_known::<S>(g, id, before, memo@, active1);
                assert forall|i: int| 0 <= i < list@.len() implies memo@.dom().contains(
                    #[trigger] list@[i],
                ) by {
                    assert(S::deps(g, before.last().id)->Some_0[i] == list@[i]);
                }
            }
            let kids = recall::<S>(Ghost(g), &list, memo);
            proof {
                lemma_built::<S>(g, current);
            }
            let shape = graph.exec_build(current, kids);
            active.remove(&current);
            memo.insert(current, shape);
            let ghost fresh1 = fresh@;
            fresh.push(current);
            proof {
                lemma_remember::<S>(g, memo1, memo@, current);
                lemma_fresh_push(memo0, memo1, memo@, fresh0, fresh1, current);
                lemma_popped::<S>(g, id, before, memo1, memo@, active1);
                lemma_active_smaller::<S>(g, id, work@, memo@, active1, active@);
                lemma_unvisited_kept(S::bound(g), memo1, memo@, active1, active@);
            }
            continue;
        }
        if active.contains(&current) {
            proof {
                lemma_cycle_top::<S>(g, id, before, memo@, active1);
            }
            return None;
        }
        active.insert(current);
        work.push(Visit { id: current, expanded: true });
        proof {
            lemma_opened::<S>(g, id, before, work@, memo@, active1, active@, current);
        }
        if !push_children::<S>(Ghost(g), Ghost(id), current, &list, &mut work, memo, &active) {
            return None;
        }
        proof {
            S::lemma_bounded(g, current);
            lemma_unvisited_less(S::bound(g), memo@, active1, active@, current);
        }
    }
    proof {
        lemma_done::<S>(g, id, work@, memo@, active@);
        lemma_remembered::<S>(g, memo@, id);
    }
    match memo.get(&id) {
        Some(shape) => Some(shape.clone()),
        None => None,
    }
}

proof fn lemma_start<S: ShapeGraph>(
    graph: S::Graph,
    root: usize,
    work: Seq<Visit>,
    memo: Map<usize, Shape>,
    active: Set<usize>,
)
    requires
        work.len() == 1,
        work[0] == (Visit { id: root, expanded: false }),
        active == Set::<usize>::empty(),
    ensures
        stack_wf::<S>(graph, root, work, memo, active),
{
    reveal(stack_wf);
    assert(work[0].id == root);
}

/// The root needs the top entry.
proof fn lemma_top_needed<S: ShapeGraph>(
    graph: S::Graph,
    root: usize,
    work: Seq<Visit>,
    memo: Map<usize, Shape>,
    active: Set<usize>,
)
    requires
        stack_wf::<S>(graph, root, work, memo, active),
        work.len() > 0,
    ensures
        has_shape::<S>(graph, root) ==> has_shape::<S>(graph, work.last().id),
{
    reveal(stack_wf);
    assert(work[work.len() - 1] == work.last());
}

/// What an expanded top entry depends on is remembered.
proof fn lemma_top_known<S: ShapeGraph>(
    graph: S::Graph,
    root: usize,
    work: Seq<Visit>,
    memo: Map<usize, Shape>,
    active: Set<usize>,
)
    requires
        stack_wf::<S>(graph, root, work, memo, active),
        work.len() > 0,
        work.last().expanded,
    ensures
        S::deps(graph, work.last().id) is Some,
        forall|k: int|
            0 <= k < S::deps(graph, work.last().id)->Some_0.len() ==> memo.dom().contains(
                #[trigger] S::deps(graph, work.last().id)->Some_0[k],
            ),
{
    reveal(stack_wf);
    let top = work.len() - 1;
    assert(work[top] == work.last());
    assert forall|k: int|
        0 <= k < S::deps(graph, work.last().id)->Some_0.len() implies memo.dom().contains(
        #[trigger] S::deps(graph, work.last().id)->Some_0[k],
    ) by {
        assert(S::deps(graph, work[top].id)->Some_0[k] == S::deps(
            graph,
            work.last().id,
        )->Some_0[k]);
    }
}

/// A node that is reached again while it is expanded has no shape, and neither
/// has the root.
proof fn lemma_cycle_top<S: ShapeGraph>(
    graph: S::Graph,
    root: usize,
    work: Seq<Visit>,
    memo: Map<usize, Shape>,
    active: Set<usize>,
)
    requires
        stack_wf::<S>(graph, root, work, memo, active),
        work.len() > 0,
        !work.last().expanded,
        active.contains(work.last().id),
        !memo.dom().contains(work.last().id),
    ensures
        !has_shape::<S>(graph, root),
{
    reveal(stack_wf);
    let top = work.len() - 1;
    let i = choose|i: int|
        0 <= i < work.len() && (#[trigger] work[i]).expanded && work[i].id == work.last().id;
    assert(work[top] == work.last());
    assert(i < top);
    assert(work[i].expanded);
    assert(has_shape::<S>(graph, root) ==> depth::<S>(graph, work[top].id) < depth::<S>(
        graph,
        work[i].id,
    ));
}

/// A node that depends on one being expanded has no shape, and neither has the
/// root.
proof fn lemma_cycle_below<S: ShapeGraph>(
    graph: S::Graph,
    root: usize,
    work: Seq<Visit>,
    memo: Map<usize, Shape>,
    active: Set<usize>,
    current: usize,
    top: int,
    at: int,
)
    requires
        partly_open::<S>(graph, root, work, memo, active, current, top, at + 1),
        S::deps(graph, current) is Some,
        0 <= at < S::deps(graph, current)->Some_0.len(),
        active.contains(S::deps(graph, current)->Some_0[at]),
        !memo.dom().contains(S::deps(graph, current)->Some_0[at]),
    ensures
        !has_shape::<S>(graph, root),
{
    reveal(partly_open);
    let child = S::deps(graph, current)->Some_0[at];
    let i = choose|i: int|
        0 <= i < work.len() && (#[trigger] work[i]).expanded && work[i].id == child;
    if has_shape::<S>(graph, root) {
        assert(has_shape::<S>(graph, work[top].id));
        lemma_dependency::<S>(graph, current, at);
        if i < top {
            assert(work[i].expanded);
            assert(depth::<S>(graph, work[top].id) < depth::<S>(graph, work[i].id));
        } else {
            assert(i == top);
        }
    }
}

proof fn lemma_done<S: ShapeGraph>(
    graph: S::Graph,
    root: usize,
    work: Seq<Visit>,
    memo: Map<usize, Shape>,
    active: Set<usize>,
)
    requires
        stack_wf::<S>(graph, root, work, memo, active),
        work.len() == 0,
    ensures
        memo.dom().contains(root),
{
    reveal(stack_wf);
}

/// Remembering what was expanded leaves no more to visit.
proof fn lemma_unvisited_kept(
    bound: nat,
    memo: Map<usize, Shape>,
    more: Map<usize, Shape>,
    active: Set<usize>,
    fewer: Set<usize>,
)
    requires
        memo.dom().subset_of(more.dom()),
        fewer.subset_of(active),
        forall|x: usize| active.contains(x) && !#[trigger] fewer.contains(x) ==> more.dom().contains(x),
    ensures
        unvisited(bound, more, fewer).len() <= unvisited(bound, memo, active).len(),
{
    lemma_unvisited_finite(bound, memo, active);
    assert(unvisited(bound, more, fewer).subset_of(unvisited(bound, memo, active)));
    vstd::set_lib::lemma_len_subset(
        unvisited(bound, more, fewer),
        unvisited(bound, memo, active),
    );
}

/// Expanding a node leaves one less to visit.
proof fn lemma_unvisited_less(
    bound: nat,
    memo: Map<usize, Shape>,
    active: Set<usize>,
    more: Set<usize>,
    current: usize,
)
    requires
        more == active.insert(current),
        current < bound,
        !memo.dom().contains(current),
        !active.contains(current),
    ensures
        unvisited(bound, memo, more).len() < unvisited(bound, memo, active).len(),
{
    lemma_unvisited_finite(bound, memo, active);
    let prior = unvisited(bound, memo, active);
    assert(prior.contains(current as int));
    assert(unvisited(bound, memo, more).subset_of(prior.remove(current as int)));
    vstd::set_lib::lemma_len_subset(
        unvisited(bound, memo, more),
        prior.remove(current as int),
    );
}

/// Leaving out the top entry, where its node is remembered.
proof fn lemma_popped<S: ShapeGraph>(
    graph: S::Graph,
    root: usize,
    work: Seq<Visit>,
    smaller: Map<usize, Shape>,
    memo: Map<usize, Shape>,
    active: Set<usize>,
)
    requires
        work.len() > 0,
        memo.dom().contains(work.last().id),
        stack_wf::<S>(graph, root, work, smaller, active),
        smaller.dom().subset_of(memo.dom()),
    ensures
        stack_wf::<S>(graph, root, work.drop_last(), memo, active),
{
    reveal(stack_wf);
    reveal(partly_open);
    let rest = work.drop_last();
    let top = work.len() - 1;
    assert forall|i: int, k: int|
        #![trigger rest[i], S::deps(graph, rest[i].id)->Some_0[k]]
        0 <= i < rest.len() && rest[i].expanded && 0 <= k < S::deps(
            graph,
            rest[i].id,
        )->Some_0.len() implies memo.dom().contains(S::deps(graph, rest[i].id)->Some_0[k])
        || exists|j: int|
        i < j < rest.len() && (#[trigger] rest[j]).id == S::deps(graph, rest[i].id)->Some_0[k] by {
        let child = S::deps(graph, work[i].id)->Some_0[k];
        assert(work[i] == rest[i]);
        if !memo.dom().contains(child) {
            assert(!smaller.dom().contains(child));
            let j = choose|j: int| i < j < work.len() && (#[trigger] work[j]).id == child;
            assert(j != top);
            assert(rest[j] == work[j]);
        }
    }
    assert forall|id: usize| #[trigger] active.contains(id) implies memo.dom().contains(id)
        || exists|i: int| 0 <= i < rest.len() && (#[trigger] rest[i]).expanded && rest[i].id
        == id by {
        if !memo.dom().contains(id) {
            assert(!smaller.dom().contains(id));
            let i = choose|i: int|
                0 <= i < work.len() && (#[trigger] work[i]).expanded && work[i].id == id;
            assert(i != top);
            assert(rest[i] == work[i]);
        }
    }
    if !memo.dom().contains(root) {
        let i = choose|i: int| 0 <= i < work.len() && (#[trigger] work[i]).id == root;
        assert(i != top);
        assert(rest[i] == work[i]);
    }
    assert forall|i: int, j: int|
        0 <= i < j < rest.len() && (#[trigger] rest[i]).expanded implies (has_shape::<S>(graph, root)
        ==> depth::<S>(graph, (#[trigger] rest[j]).id) < depth::<S>(graph, rest[i].id)) by {
        assert(work[i] == rest[i]);
        assert(work[j] == rest[j]);
    }
    assert forall|i: int| 0 <= i < rest.len() implies (has_shape::<S>(graph, root) ==> has_shape::<
        S,
    >(graph, (#[trigger] rest[i]).id)) by {
        assert(work[i] == rest[i]);
    }
    assert forall|i: int| 0 <= i < rest.len() && (#[trigger] rest[i]).expanded implies S::deps(
        graph,
        rest[i].id,
    ) is Some by {
        assert(work[i] == rest[i]);
    }
}

/// Fewer active nodes keep the stack right.
proof fn lemma_active_smaller<S: ShapeGraph>(
    graph: S::Graph,
    root: usize,
    work: Seq<Visit>,
    memo: Map<usize, Shape>,
    active: Set<usize>,
    fewer: Set<usize>,
)
    requires
        stack_wf::<S>(graph, root, work, memo, active),
        fewer.subset_of(active),
    ensures
        stack_wf::<S>(graph, root, work, memo, fewer),
{
    reveal(stack_wf);
    reveal(partly_open);
}

/// Remembering one more node.
proof fn lemma_fresh_push(
    memo0: Map<usize, Shape>,
    before: Map<usize, Shape>,
    after: Map<usize, Shape>,
    fresh0: Seq<usize>,
    fresh: Seq<usize>,
    current: usize,
)
    requires
        grown(memo0, before, fresh0, fresh),
        !before.dom().contains(current),
        after.dom() == before.dom().insert(current),
        forall|x: usize| before.dom().contains(x) ==> after[x] == before[x],
    ensures
        grown(memo0, after, fresh0, fresh.push(current)),
{
    reveal(grown);
    let n = fresh0.len() as int;
    let old_tail = fresh.skip(n);
    let tail = fresh.push(current).skip(n);
    assert(tail =~= old_tail.push(current));
    assert forall|x: usize| #[trigger] after.dom().contains(x) <==> memo0.dom().contains(x)
        || tail.contains(x) by {
        assert(before.dom().contains(x) <==> memo0.dom().contains(x) || old_tail.contains(x));
        if old_tail.contains(x) {
            let i = choose|i: int| 0 <= i < old_tail.len() && old_tail[i] == x;
            assert(tail[i] == x);
        }
        if x == current {
            assert(tail[tail.len() - 1] == x);
        }
        if tail.contains(x) && x != current {
            let i = choose|i: int| 0 <= i < tail.len() && tail[i] == x;
            assert(old_tail[i] == x);
        }
    }
    assert(!memo0.dom().contains(current)) by {
        assert(before.dom().contains(current) <==> memo0.dom().contains(current)
            || old_tail.contains(current));
    }
}

/// What holds while the dependencies of `current`, the entry at `top`, are put
/// on the stack: those from place `from` on are there or remembered.
#[verifier::opaque]
spec fn partly_open<S: ShapeGraph>(
    graph: S::Graph,
    root: usize,
    work: Seq<Visit>,
    memo: Map<usize, Shape>,
    active: Set<usize>,
    current: usize,
    top: int,
    from: int,
) -> bool {
    &&& 0 <= top < work.len()
    &&& work[top] == (Visit { id: current, expanded: true })
    &&& forall|i: int| top < i < work.len() ==> !(#[trigger] work[i]).expanded
    &&& forall|i: int|
        0 <= i < work.len() ==> (has_shape::<S>(graph, root) ==> has_shape::<S>(
            graph,
            (#[trigger] work[i]).id,
        ))
    &&& forall|i: int, j: int|
        0 <= i < j < work.len() && (#[trigger] work[i]).expanded ==> (has_shape::<S>(graph, root)
            ==> depth::<S>(graph, (#[trigger] work[j]).id) < depth::<S>(graph, work[i].id))
    &&& forall|i: int|
        0 <= i < work.len() && (#[trigger] work[i]).expanded ==> S::deps(
            graph,
            work[i].id,
        ) is Some
    &&& forall|i: int, k: int|
        #![trigger work[i], S::deps(graph, work[i].id)->Some_0[k]]
        0 <= i < work.len() && work[i].expanded && (if i == top {
            from
        } else {
            0
        }) <= k < S::deps(graph, work[i].id)->Some_0.len() ==> memo.dom().contains(
            S::deps(graph, work[i].id)->Some_0[k],
        ) || exists|j: int|
            i < j < work.len() && (#[trigger] work[j]).id == S::deps(graph, work[i].id)->Some_0[k]
    &&& forall|id: usize|
        #[trigger] active.contains(id) ==> memo.dom().contains(id) || exists|i: int|
            0 <= i < work.len() && (#[trigger] work[i]).expanded && work[i].id == id
    &&& memo.dom().contains(root) || exists|i: int|
        0 <= i < work.len() && (#[trigger] work[i]).id == root
}

/// Expanding the top entry.
proof fn lemma_opened<S: ShapeGraph>(
    graph: S::Graph,
    root: usize,
    before: Seq<Visit>,
    opened: Seq<Visit>,
    memo: Map<usize, Shape>,
    active: Set<usize>,
    more: Set<usize>,
    current: usize,
)
    requires
        stack_wf::<S>(graph, root, before, memo, active),
        before.len() > 0,
        before.last() == (Visit { id: current, expanded: false }),
        opened == before.drop_last().push(Visit { id: current, expanded: true }),
        more == active.insert(current),
        S::deps(graph, current) is Some,
    ensures
        partly_open::<S>(
            graph,
            root,
            opened,
            memo,
            more,
            current,
            before.len() - 1,
            S::deps(graph, current)->Some_0.len() as int,
        ),
{
    reveal(stack_wf);
    reveal(partly_open);
    let top = before.len() - 1;
    assert forall|i: int| 0 <= i < opened.len() implies (#[trigger] opened[i]).id == before[i].id by {
    }
    assert forall|i: int| 0 <= i < opened.len() implies (has_shape::<S>(graph, root)
        ==> has_shape::<S>(graph, (#[trigger] opened[i]).id)) by {
        assert(has_shape::<S>(graph, root) ==> has_shape::<S>(graph, before[i].id));
    }
    assert forall|i: int, j: int|
        0 <= i < j < opened.len() && (#[trigger] opened[i]).expanded implies (has_shape::<S>(
        graph,
        root,
    ) ==> depth::<S>(graph, (#[trigger] opened[j]).id) < depth::<S>(graph, opened[i].id)) by {
        assert(before[i] == opened[i]);
        assert(before[j].id == opened[j].id);
    }
    assert forall|i: int, k: int|
        #![trigger opened[i], S::deps(graph, opened[i].id)->Some_0[k]]
        0 <= i < opened.len() && opened[i].expanded && (if i == top {
            S::deps(graph, current)->Some_0.len() as int
        } else {
            0
        }) <= k < S::deps(graph, opened[i].id)->Some_0.len() implies memo.dom().contains(
        S::deps(graph, opened[i].id)->Some_0[k],
    ) || exists|j: int|
        i < j < opened.len() && (#[trigger] opened[j]).id == S::deps(
            graph,
            opened[i].id,
        )->Some_0[k] by {
        assert(i < top);
        assert(before[i] == opened[i]);
        let child = S::deps(graph, before[i].id)->Some_0[k];
        if !memo.dom().contains(child) {
            let j = choose|j: int| i < j < before.len() && (#[trigger] before[j]).id == child;
            assert(opened[j].id == child);
        }
    }
    assert forall|id: usize| #[trigger] more.contains(id) implies memo.dom().contains(id)
        || exists|i: int| 0 <= i < opened.len() && (#[trigger] opened[i]).expanded && opened[i].id
        == id by {
        if id == current {
            assert(opened[top].expanded && opened[top].id == id);
        } else if !memo.dom().contains(id) {
            assert(active.contains(id));
            let i = choose|i: int|
                0 <= i < before.len() && (#[trigger] before[i]).expanded && before[i].id == id;
            assert(i != top);
            assert(opened[i] == before[i]);
        }
    }
    if !memo.dom().contains(root) {
        let i = choose|i: int| 0 <= i < before.len() && (#[trigger] before[i]).id == root;
        assert(opened[i].id == root);
    }
    assert forall|i: int| 0 <= i < opened.len() && (#[trigger] opened[i]).expanded implies S::deps(
        graph,
        opened[i].id,
    ) is Some by {
        if i < top {
            assert(before[i] == opened[i]);
        }
    }
}

/// One more dependency is on the stack.
proof fn lemma_child_pushed<S: ShapeGraph>(
    graph: S::Graph,
    root: usize,
    before: Seq<Visit>,
    after: Seq<Visit>,
    memo: Map<usize, Shape>,
    active: Set<usize>,
    current: usize,
    top: int,
    at: int,
)
    requires
        partly_open::<S>(graph, root, before, memo, active, current, top, at + 1),
        S::deps(graph, current) is Some,
        0 <= at < S::deps(graph, current)->Some_0.len(),
        after == before.push(Visit { id: S::deps(graph, current)->Some_0[at], expanded: false }),
    ensures
        partly_open::<S>(graph, root, after, memo, active, current, top, at),
{
    reveal(stack_wf);
    reveal(partly_open);
    let child = S::deps(graph, current)->Some_0[at];
    let end = before.len() as int;
    if has_shape::<S>(graph, root) {
        assert(has_shape::<S>(graph, before[top].id));
        lemma_dependency::<S>(graph, current, at);
    }
    assert forall|i: int| 0 <= i < after.len() implies (has_shape::<S>(graph, root)
        ==> has_shape::<S>(graph, (#[trigger] after[i]).id)) by {
        if i < end {
            assert(after[i] == before[i]);
        }
    }
    assert forall|i: int, j: int|
        0 <= i < j < after.len() && (#[trigger] after[i]).expanded implies (has_shape::<S>(
        graph,
        root,
    ) ==> depth::<S>(graph, (#[trigger] after[j]).id) < depth::<S>(graph, after[i].id)) by {
        assert(after[i] == before[i]);
        if j < end {
            assert(after[j] == before[j]);
        } else if i < top {
            assert(has_shape::<S>(graph, root) ==> depth::<S>(graph, before[top].id) < depth::<S>(
                graph,
                before[i].id,
            ));
        } else {
            assert(i == top);
        }
    }
    assert forall|i: int, k: int|
        #![trigger after[i], S::deps(graph, after[i].id)->Some_0[k]]
        0 <= i < after.len() && after[i].expanded && (if i == top {
            at
        } else {
            0
        }) <= k < S::deps(graph, after[i].id)->Some_0.len() implies memo.dom().contains(
        S::deps(graph, after[i].id)->Some_0[k],
    ) || exists|j: int|
        i < j < after.len() && (#[trigger] after[j]).id == S::deps(
            graph,
            after[i].id,
        )->Some_0[k] by {
        assert(after[i] == before[i]);
        let wanted = S::deps(graph, after[i].id)->Some_0[k];
        if i == top && k == at {
            assert(after[end].id == wanted);
        } else if !memo.dom().contains(wanted) {
            assert(S::deps(graph, before[i].id)->Some_0[k] == wanted);
            let j = choose|j: int| i < j < before.len() && (#[trigger] before[j]).id == wanted;
            assert(after[j].id == wanted);
        }
    }
    assert forall|id: usize| #[trigger] active.contains(id) implies memo.dom().contains(id)
        || exists|i: int| 0 <= i < after.len() && (#[trigger] after[i]).expanded && after[i].id
        == id by {
        if !memo.dom().contains(id) {
            let i = choose|i: int|
                0 <= i < before.len() && (#[trigger] before[i]).expanded && before[i].id == id;
            assert(after[i] == before[i]);
        }
    }
    if !memo.dom().contains(root) {
        let i = choose|i: int| 0 <= i < before.len() && (#[trigger] before[i]).id == root;
        assert(after[i].id == root);
    }
    assert forall|i: int| 0 <= i < after.len() && (#[trigger] after[i]).expanded implies S::deps(
        graph,
        after[i].id,
    ) is Some by {
        assert(after[i] == before[i]);
    }
    assert forall|i: int| top < i < after.len() implies !(#[trigger] after[i]).expanded by {
        if i < end {
            assert(after[i] == before[i]);
        }
    }
}

/// One more dependency is remembered.
proof fn lemma_child_known<S: ShapeGraph>(
    graph: S::Graph,
    root: usize,
    work: Seq<Visit>,
    memo: Map<usize, Shape>,
    active: Set<usize>,
    current: usize,
    top: int,
    at: int,
)
    requires
        partly_open::<S>(graph, root, work, memo, active, current, top, at + 1),
        S::deps(graph, current) is Some,
        0 <= at < S::deps(graph, current)->Some_0.len(),
        memo.dom().contains(S::deps(graph, current)->Some_0[at]),
    ensures
        partly_open::<S>(graph, root, work, memo, active, current, top, at),
{
    reveal(stack_wf);
    reveal(partly_open);
    assert forall|i: int, k: int|
        #![trigger work[i], S::deps(graph, work[i].id)->Some_0[k]]
        0 <= i < work.len() && work[i].expanded && (if i == top {
            at
        } else {
            0
        }) <= k < S::deps(graph, work[i].id)->Some_0.len() implies memo.dom().contains(
        S::deps(graph, work[i].id)->Some_0[k],
    ) || exists|j: int|
        i < j < work.len() && (#[trigger] work[j]).id == S::deps(graph, work[i].id)->Some_0[k] by {
        if i == top && k == at {
        } else {
            assert(S::deps(graph, work[i].id)->Some_0[k] == S::deps(graph, work[i].id)->Some_0[k]);
        }
    }
}

/// Growing twice is growing.
pub proof fn lemma_grown_twice(
    memo0: Map<usize, Shape>,
    memo1: Map<usize, Shape>,
    memo2: Map<usize, Shape>,
    fresh0: Seq<usize>,
    fresh1: Seq<usize>,
    fresh2: Seq<usize>,
)
    requires
        grown(memo0, memo1, fresh0, fresh1),
        grown(memo1, memo2, fresh1, fresh2),
    ensures
        grown(memo0, memo2, fresh0, fresh2),
{
    reveal(grown);
    let n0 = fresh0.len() as int;
    let n1 = fresh1.len() as int;
    let a = fresh1.skip(n0);
    let b = fresh2.skip(n1);
    let c = fresh2.skip(n0);
    assert(fresh1 =~= fresh2.take(n1));
    assert(c =~= a + b);
    assert forall|x: usize| #[trigger] memo2.dom().contains(x) <==> memo0.dom().contains(x)
        || c.contains(x) by {
        assert(memo2.dom().contains(x) <==> memo1.dom().contains(x) || b.contains(x));
        assert(memo1.dom().contains(x) <==> memo0.dom().contains(x) || a.contains(x));
        if a.contains(x) {
            let i = choose|i: int| 0 <= i < a.len() && a[i] == x;
            assert(c[i] == x);
        }
        if b.contains(x) {
            let i = choose|i: int| 0 <= i < b.len() && b[i] == x;
            assert(c[a.len() + i] == x);
        }
        if c.contains(x) {
            let i = choose|i: int| 0 <= i < c.len() && c[i] == x;
            if i < a.len() {
                assert(a[i] == x);
            } else {
                assert(b[i - a.len()] == x);
            }
        }
    }
    assert forall|i: int| n0 <= i < fresh2.len() implies !memo0.dom().contains(
        #[trigger] fresh2[i],
    ) by {
        if i < n1 {
            assert(fresh2[i] == fresh1[i]);
        } else {
            assert(!memo1.dom().contains(fresh2[i]));
        }
    }
    assert forall|x: usize| memo0.dom().contains(x) implies #[trigger] memo2.dom().contains(x)
        && memo0[x] == memo2[x] by {
        assert(memo1.dom().contains(x));
    }
    assert(fresh0.is_prefix_of(fresh2)) by {
        assert(fresh0 =~= fresh1.take(n0));
        assert(fresh0 =~= fresh2.take(n0));
    }
}

/// Nothing grows at first.
pub proof fn lemma_grown_none(memo: Map<usize, Shape>, fresh: Seq<usize>)
    ensures
        grown(memo, memo, fresh, fresh),
{
    reveal(grown);
    assert(fresh.skip(fresh.len() as int) =~= Seq::<usize>::empty());
}

} // verus!
