//! Matching: which nodes and products of one frontier stand for which of
//! another.

use std::collections::HashMap;
use vstd::prelude::*;
use vstd::relations::*;
use vstd::seq_lib::*;

use crate::framework::parse::data::frontier::{
    edge_shape, is_frontier, lemma_sorted_shapes_wf, listed_once, state_edges, state_items,
    state_items_view, state_targets, states_known, CanonicalFrontier, CanonicalFrontierCache,
    CanonicalNodes, FrontierView, StateGraph, StateNodes,
};
use crate::framework::parse::data::green::TreeArena;
use crate::framework::parse::data::gss::{edges_from, GssArena, GssNodeId, GssView};
use crate::framework::parse::data::product::{
    ProductArena, ProductId, ProductView, StateProducts,
};
use crate::shape::{
    keyed_ascending, keyed_le, keyed_shapes, keyed_views, lemma_keyed_shapes_ascending,
    lemma_keyed_total, lemma_shape_ascending_permuted, lemma_shape_total, shape_le, sort_keyed,
    views, Keyed, KeyedView, Shape, ShapeView,
};
use crate::shape_graph::{has_shape, lemma_built, lemma_dependency, memo_wf, shape_key, shape_of, shapes_of, ShapeGraph};

verus! {

// ---------------------------------------------------------------------------
// Canonical matching

/// Some item of a list has a shape.
pub open spec fn has_item(list: Seq<KeyedView>, shape: ShapeView) -> bool {
    exists|j: int| 0 <= j < list.len() && (#[trigger] list[j]).shape == shape
}

/// Every item of `a` has one of the same shape in `b`.
pub open spec fn covered(a: Seq<KeyedView>, b: Seq<KeyedView>) -> bool {
    forall|i: int| 0 <= i < a.len() ==> has_item(b, (#[trigger] a[i]).shape)
}

/// `map` takes each id of `a` to an id of the same shape in `b`.
pub open spec fn pairs_up(a: Seq<KeyedView>, b: Seq<KeyedView>, map: Map<usize, usize>) -> bool {
    &&& forall|i: int|
        0 <= i < a.len() ==> map.dom().contains((#[trigger] a[i]).first) && exists|j: int|
            0 <= j < b.len() && (#[trigger] b[j]).shape == a[i].shape && map[a[i].first]
                == b[j].first
    &&& forall|id: usize|
        #[trigger] map.dom().contains(id) ==> exists|i: int|
            0 <= i < a.len() && (#[trigger] a[i]).first == id
}

/// `map` takes some id to itself.
pub open spec fn keeps_some(map: Map<usize, usize>) -> bool {
    exists|id: usize| #[trigger] map.dom().contains(id) && map[id] == id
}

/// Two frontiers stand for the same parser configuration, without doubt about
/// which node or product stands for which.
pub open spec fn frontiers_match(old: FrontierView, new: FrontierView) -> bool {
    &&& !old.ambiguous
    &&& !new.ambiguous
    &&& old.base == new.base
    &&& old.active == new.active
    &&& covered(old.nodes, new.nodes)
    &&& covered(old.products, new.products)
}

/// Looks for an item of a shape.
fn find_shape(list: &Vec<Keyed>, shape: &Shape) -> (r: Option<usize>)
    requires
        shape.wf(),
        forall|i: int| 0 <= i < list@.len() ==> (#[trigger] list@[i]).shape.wf(),
    ensures
        match r {
            Some(at) => at < list@.len() && keyed_views(list@)[at as int].shape == shape.view(),
            None => forall|j: int|
                0 <= j < list@.len() ==> (#[trigger] keyed_views(list@)[j]).shape != shape.view(),
        },
{
    let mut index: usize = 0;
    while index < list.len()
        invariant
            index <= list@.len(),
            shape.wf(),
            forall|i: int| 0 <= i < list@.len() ==> (#[trigger] list@[i]).shape.wf(),
            forall|j: int|
                0 <= j < index ==> (#[trigger] keyed_views(list@)[j]).shape != shape.view(),
        decreases list@.len() - index,
    {
        assert(list@[index as int].shape.wf());
        if list[index].shape.same(shape) {
            return Some(index);
        }
        assert(keyed_views(list@)[index as int].shape != shape.view());
        index += 1;
    }
    None
}

/// Pairs the items of one list with items of the same shape in another.
fn pair_up(old: &Vec<Keyed>, new: &Vec<Keyed>) -> (r: Option<(HashMap<usize, usize>, bool)>)
    requires
        forall|i: int| 0 <= i < old@.len() ==> (#[trigger] old@[i]).shape.wf(),
        forall|i: int| 0 <= i < new@.len() ==> (#[trigger] new@[i]).shape.wf(),
        listed_once(keyed_views(old@)),
    ensures
        r is Some <==> covered(keyed_views(old@), keyed_views(new@)),
        r is Some ==> pairs_up(keyed_views(old@), keyed_views(new@), r->Some_0.0@)
            && r->Some_0.1 == keeps_some(r->Some_0.0@),
{
    broadcast use vstd::std_specs::hash::group_hash_axioms;

    let ghost a = keyed_views(old@);
    let ghost b = keyed_views(new@);
    let mut map: HashMap<usize, usize> = HashMap::new();
    let mut kept = false;
    let mut index: usize = 0;
    assert(a.take(0) =~= Seq::<KeyedView>::empty());
    while index < old.len()
        invariant
            index <= old@.len(),
            a == keyed_views(old@),
            b == keyed_views(new@),
            listed_once(a),
            forall|i: int| 0 <= i < old@.len() ==> (#[trigger] old@[i]).shape.wf(),
            forall|i: int| 0 <= i < new@.len() ==> (#[trigger] new@[i]).shape.wf(),
            pairs_up(a.take(index as int), b, map@),
            kept == keeps_some(map@),
        decreases old@.len() - index,
    {
        broadcast use vstd::std_specs::hash::group_hash_axioms;

        let item = &old[index];
        assert(old@[index as int].shape.wf());
        let ghost before = map@;
        match find_shape(new, &item.shape) {
            Some(at) => {
                let partner: usize = new[at].first;
                map.insert(item.first, partner);
                if partner == item.first {
                    kept = true;
                }
                proof {
                    let prefix = a.take(index as int);
                    let next = a.take(index as int + 1);
                    assert(a[index as int] == item.view());
                    assert(!before.dom().contains(item.first)) by {
                        if before.dom().contains(item.first) {
                            let i = choose|i: int|
                                0 <= i < prefix.len() && (#[trigger] prefix[i]).first == item.first;
                            assert(a[i].first == a[index as int].first);
                        }
                    }
                    assert forall|i: int| 0 <= i < next.len() implies map@.dom().contains(
                        (#[trigger] next[i]).first,
                    ) && exists|j: int|
                        0 <= j < b.len() && (#[trigger] b[j]).shape == next[i].shape
                            && map@[next[i].first] == b[j].first by {
                        if i < index {
                            assert(next[i] == prefix[i]);
                            assert(before.dom().contains(prefix[i].first));
                            let j = choose|j: int|
                                0 <= j < b.len() && (#[trigger] b[j]).shape == prefix[i].shape
                                    && before[prefix[i].first] == b[j].first;
                            assert(b[j].shape == next[i].shape && map@[next[i].first]
                                == b[j].first);
                        } else {
                            assert(b[at as int].shape == next[i].shape && map@[next[i].first]
                                == b[at as int].first);
                        }
                    }
                    assert forall|id: usize| #[trigger] map@.dom().contains(id) implies exists|
                        i: int,
                    | 0 <= i < next.len() && (#[trigger] next[i]).first == id by {
                        if id == item.first {
                            assert(next[index as int].first == id);
                        } else {
                            assert(before.dom().contains(id));
                            let i = choose|i: int|
                                0 <= i < prefix.len() && (#[trigger] prefix[i]).first == id;
                            assert(next[i].first == id);
                        }
                    }
                    if keeps_some(before) {
                        let id = choose|id: usize|
                            #[trigger] before.dom().contains(id) && before[id] == id;
                        assert(map@.dom().contains(id) && map@[id] == id);
                    }
                    if partner == item.first {
                        assert(map@.dom().contains(partner) && map@[partner] == partner);
                    } else if keeps_some(map@) {
                        let id = choose|id: usize|
                            #[trigger] map@.dom().contains(id) && map@[id] == id;
                        assert(before.dom().contains(id) && before[id] == id);
                    }
                }
            },
            None => {
                proof {
                    assert(a[index as int].shape == item.shape.view());
                    assert(!covered(a, b));
                }
                return None;
            },
        }
        index += 1;
    }
    proof {
        assert(a.take(index as int) =~= a);
        assert(pairs_up(a, b, map@));
        assert forall|i: int| 0 <= i < a.len() implies has_item(
            b,
            (#[trigger] a[i]).shape,
        ) by {
            let j = choose|j: int|
                0 <= j < b.len() && (#[trigger] b[j]).shape == a[i].shape && map@[a[i].first]
                    == b[j].first;
            assert(b[j].shape == a[i].shape);
        }
    }
    Some((map, kept))
}

/// Matches two canonical frontiers.
pub fn match_frontiers(old: &CanonicalFrontier, new: &CanonicalFrontier) -> (r: Option<
    (HashMap<usize, usize>, HashMap<usize, usize>, bool),
>)
    requires
        old.wf(),
        new.wf(),
    ensures
        r is Some <==> frontiers_match(old.view(), new.view()),
        r is Some ==> {
            let (nodes, products, shared) = r->Some_0;
            &&& pairs_up(old.view().nodes, new.view().nodes, nodes@)
            &&& pairs_up(old.view().products, new.view().products, products@)
            &&& shared == (keeps_some(nodes@) || keeps_some(products@))
        },
{
    if old.ambiguous || new.ambiguous || !old.key.same(&new.key) {
        return None;
    }
    let (nodes, same_node) = match pair_up(&old.nodes, &new.nodes) {
        Some(found) => found,
        None => {
            return None;
        },
    };
    let (products, same_product) = match pair_up(&old.products, &new.products) {
        Some(found) => found,
        None => {
            return None;
        },
    };
    Some((nodes, products, same_node || same_product))
}

/// Some root of the lists has no canonical shape.
pub open spec fn shapeless_root(
    g: (GssView, Seq<ProductView>),
    sets: (Seq<usize>, Seq<usize>),
) -> bool {
    exists|id: usize|
        (sets.0.contains(id) || sets.1.contains(id)) && !#[trigger] has_shape::<
            CanonicalNodes<'_>,
        >(g, id)
}

/// `r` is the match of two frontiers, each with the nodes first looked into for
/// it.
pub open spec fn matched_as(
    g: (GssView, Seq<ProductView>),
    old_sets: (Seq<usize>, Seq<usize>),
    new_sets: (Seq<usize>, Seq<usize>),
    old: (FrontierView, Set<usize>),
    new: (FrontierView, Set<usize>),
    r: Option<(Map<usize, usize>, Map<usize, usize>, bool)>,
) -> bool {
    &&& is_frontier(g, old_sets.0, old_sets.1, old.1, old.0)
    &&& is_frontier(g, new_sets.0, new_sets.1, new.1, new.0)
    &&& old.1.disjoint(new.1)
    &&& r is Some <==> frontiers_match(old.0, new.0)
    &&& r is Some ==> {
        let (nodes, products, shared) = r->Some_0;
        &&& pairs_up(old.0.nodes, new.0.nodes, nodes)
        &&& pairs_up(old.0.products, new.0.products, products)
        &&& shared == (keeps_some(nodes) || keeps_some(products))
    }
}

/// `r` is the match of the canonical frontiers of two pairs of root sets, where
/// the second is computed after the first and does not look again into nodes
/// that were looked into.
pub open spec fn canonical_match(
    g: (GssView, Seq<ProductView>),
    old_sets: (Seq<usize>, Seq<usize>),
    new_sets: (Seq<usize>, Seq<usize>),
    r: Option<(Map<usize, usize>, Map<usize, usize>, bool)>,
) -> bool {
    ||| r is None && (shapeless_root(g, old_sets) || shapeless_root(g, new_sets))
    ||| exists|old: FrontierView, new: FrontierView, old_fresh: Set<usize>, new_fresh: Set<usize>|
        #[trigger] matched_as(g, old_sets, new_sets, (old, old_fresh), (new, new_fresh), r)
}

/// What a match says.
pub open spec fn match_view(r: Option<(HashMap<usize, usize>, HashMap<usize, usize>, bool)>) -> Option<
    (Map<usize, usize>, Map<usize, usize>, bool),
> {
    match r {
        Some((nodes, products, shared)) => Some((nodes@, products@, shared)),
        None => None,
    }
}

impl GssArena {
    /// Matches the canonical frontiers of two pairs of root sets.
    pub fn match_canonical_frontiers(
        &self,
        old_sets: (&[GssNodeId], &[GssNodeId]),
        new_sets: (&[GssNodeId], &[GssNodeId]),
        products: &ProductArena,
    ) -> (r: Option<(HashMap<GssNodeId, GssNodeId>, HashMap<ProductId, ProductId>, bool)>)
        requires
            self.wf(),
            products.wf(),
        ensures
            canonical_match(
                (self@, products@),
                (old_sets.0@, old_sets.1@),
                (new_sets.0@, new_sets.1@),
                match_view(r),
            ),
    {
        let mut cache = CanonicalFrontierCache::new();
        assert(cache.canonical_wf((self@, products@)));
        self.match_canonical_frontiers_cached(old_sets, new_sets, products, &mut cache)
    }

    /// Matches the canonical frontiers of two pairs of root sets with what is
    /// remembered.
    pub fn match_canonical_frontiers_cached(
        &self,
        old_sets: (&[GssNodeId], &[GssNodeId]),
        new_sets: (&[GssNodeId], &[GssNodeId]),
        products: &ProductArena,
        cache: &mut CanonicalFrontierCache,
    ) -> (r: Option<(HashMap<GssNodeId, GssNodeId>, HashMap<ProductId, ProductId>, bool)>)
        requires
            self.wf(),
            products.wf(),
            old(cache).canonical_wf((self@, products@)),
        ensures
            final(cache).canonical_wf((self@, products@)),
            final(cache).state_nodes@ == old(cache).state_nodes@,
            final(cache).state_products@ == old(cache).state_products@,
            canonical_match(
                (self@, products@),
                (old_sets.0@, old_sets.1@),
                (new_sets.0@, new_sets.1@),
                match_view(r),
            ),
    {
        let ghost g = (self@, products@);
        let ghost memo0 = cache.nodes@;
        let old = match self.canonical_frontier_cached(old_sets, products, cache) {
            Some(frontier) => frontier,
            None => {
                return None;
            },
        };
        let ghost memo1 = cache.nodes@;
        let new = match self.canonical_frontier_cached(new_sets, products, cache) {
            Some(frontier) => frontier,
            None => {
                return None;
            },
        };
        let ghost memo2 = cache.nodes@;
        let r = match_frontiers(&old, &new);
        proof {
            let old_fresh = memo1.dom().difference(memo0.dom());
            let new_fresh = memo2.dom().difference(memo1.dom());
            assert(old_fresh.disjoint(new_fresh));
            assert(is_frontier(g, old_sets.0@, old_sets.1@, old_fresh, old.view()));
            assert(is_frontier(g, new_sets.0@, new_sets.1@, new_fresh, new.view()));
            let m = match_view(r);
            assert(m is Some <==> frontiers_match(old.view(), new.view()));
            assert(matched_as(
                g,
                (old_sets.0@, old_sets.1@),
                (new_sets.0@, new_sets.1@),
                (old.view(), old_fresh),
                (new.view(), new_fresh),
                m,
            ));
        }
        r
    }
}

// ---------------------------------------------------------------------------
// Matching at the level of states

/// Roots with their state shapes.
pub open spec fn state_root_keys(g: StateGraph, roots: Seq<usize>) -> Seq<KeyedView> {
    roots.map_values(
        |id: usize| KeyedView { shape: shape_of::<StateNodes<'_>>(g, id), first: id, second: 0 },
    )
}

/// Every root is a node with a state shape.
pub open spec fn roots_have_states(g: StateGraph, roots: Seq<usize>) -> bool {
    forall|i: int|
        0 <= i < roots.len() ==> #[trigger] roots[i] != usize::MAX && has_shape::<StateNodes<'_>>(
            g,
            roots[i],
        )
}

/// Two sets of active nodes stand for the same LR configuration: as many
/// nodes, of the same state shapes.
pub open spec fn states_match(g: StateGraph, old: Seq<usize>, new: Seq<usize>) -> bool {
    &&& old.len() == new.len()
    &&& roots_have_states(g, old)
    &&& roots_have_states(g, new)
    &&& keyed_shapes(keyed_ascending(state_root_keys(g, old))) == keyed_shapes(
        keyed_ascending(state_root_keys(g, new)),
    )
}

/// The edges of a node in the order of their shapes, with target and product.
pub open spec fn sorted_edges(g: StateGraph, id: usize) -> Seq<KeyedView> {
    keyed_ascending(
        state_items_view(
            (g.1, g.2),
            edges_from(g.0.edges, id),
            shapes_of::<StateNodes<'_>>(g, state_targets(edges_from(g.0.edges, id), id)),
        ),
    )
}

/// A pair of an old and a new node.
pub type NodePair = (usize, usize);

/// The pairs in which the roots are compared.
pub open spec fn root_pairs(g: StateGraph, old: Seq<usize>, new: Seq<usize>) -> Seq<NodePair> {
    let a = keyed_ascending(state_root_keys(g, old));
    let b = keyed_ascending(state_root_keys(g, new));
    Seq::new(a.len(), |i: int| (a[i].first, b[i].first))
}

/// The pair that the `i`-th edges of a pair lead to.
pub open spec fn edge_pair(g: StateGraph, pair: NodePair, i: int) -> NodePair {
    (sorted_edges(g, pair.0)[i].first, sorted_edges(g, pair.1)[i].first)
}

/// A pair is compared after at most `steps` edges from the roots.
pub open spec fn compared_within(
    g: StateGraph,
    roots: Seq<NodePair>,
    pair: NodePair,
    steps: nat,
) -> bool
    decreases steps,
{
    roots.contains(pair) || (steps > 0 && exists|from: NodePair, i: int|
        #![trigger edge_pair(g, from, i)]
        compared_within(g, roots, from, (steps - 1) as nat) && 0 <= i < sorted_edges(
            g,
            from.0,
        ).len() && pair == edge_pair(g, from, i))
}

/// A pair is compared.
pub open spec fn compared(g: StateGraph, roots: Seq<NodePair>, pair: NodePair) -> bool {
    exists|steps: nat| #[trigger] compared_within(g, roots, pair, steps)
}

/// What the edges of a pair show, one after the other: where the products
/// differ, the new one stands in the place of the old one from then on.
pub open spec fn edges_noted(
    map: Map<usize, usize>,
    old: Seq<KeyedView>,
    new: Seq<KeyedView>,
    n: int,
) -> Map<usize, usize>
    decreases n,
{
    if n <= 0 {
        map
    } else {
        let before = edges_noted(map, old, new, n - 1);
        if old[n - 1].second != new[n - 1].second {
            before.insert(old[n - 1].second, new[n - 1].second)
        } else {
            before
        }
    }
}

/// What pairs show in the order in which they are compared. A later one has the
/// last word.
pub open spec fn pairs_noted(g: StateGraph, order: Seq<NodePair>) -> Map<usize, usize>
    decreases order.len(),
{
    if order.len() == 0 {
        Map::empty()
    } else {
        let pair = order.last();
        edges_noted(
            pairs_noted(g, order.drop_last()),
            sorted_edges(g, pair.0),
            sorted_edges(g, pair.1),
            sorted_edges(g, pair.0).len() as int,
        )
    }
}

/// The pairs that are still to be compared, and those that were, in order, after
/// a number of steps. The last one to be compared comes next, and what its edges
/// lead to comes before what was there. A pair is compared once.
pub open spec fn walk_after(g: StateGraph, roots: Seq<NodePair>, steps: nat) -> (
    Seq<NodePair>,
    Seq<NodePair>,
)
    decreases steps,
{
    if steps == 0 {
        (roots, Seq::empty())
    } else {
        let (stack, order) = walk_after(g, roots, (steps - 1) as nat);
        if stack.len() == 0 {
            (stack, order)
        } else if order.contains(stack.last()) {
            (stack.drop_last(), order)
        } else {
            let pair = stack.last();
            (
                stack.drop_last() + Seq::new(
                    sorted_edges(g, pair.0).len(),
                    |i: int| edge_pair(g, pair, i),
                ),
                order.push(pair),
            )
        }
    }
}

/// `map` holds what was shown last of every product, over all pairs in the order
/// in which they are compared.
pub open spec fn shown_last(
    g: StateGraph,
    roots: Seq<NodePair>,
    map: Map<usize, usize>,
) -> bool {
    exists|steps: nat|
        (#[trigger] walk_after(g, roots, steps)).0.len() == 0 && map == pairs_noted(
            g,
            walk_after(g, roots, steps).1,
        )
}

/// `map` holds what the comparison found: every product that stands in another
/// one's place maps to such a one, the one that was shown last, and nothing else
/// is mapped.
pub open spec fn seam_map(
    g: StateGraph,
    roots: Seq<NodePair>,
    map: Map<usize, usize>,
) -> bool {
    &&& shown_last(g, roots, map)
    &&& forall|pair: NodePair, i: int|
        #![trigger compared(g, roots, pair), sorted_edges(g, pair.0)[i]]
        compared(g, roots, pair) && 0 <= i < sorted_edges(g, pair.0).len() && sorted_edges(
            g,
            pair.0,
        )[i].second != sorted_edges(g, pair.1)[i].second ==> map.dom().contains(
            sorted_edges(g, pair.0)[i].second,
        )
    &&& forall|product: usize|
        #[trigger] map.dom().contains(product) ==> map[product] != product && exists|
            pair: NodePair,
            i: int,
        |
            #![trigger compared(g, roots, pair), sorted_edges(g, pair.0)[i]]
            compared(g, roots, pair) && 0 <= i < sorted_edges(g, pair.0).len() && sorted_edges(
                g,
                pair.0,
            )[i].second == product && sorted_edges(g, pair.1)[i].second == map[product]
}

/// The state shape of a node is built from its sorted edges.
proof fn lemma_state_unfold(g: StateGraph, id: usize)
    requires
        has_shape::<StateNodes<'_>>(g, id),
        id != usize::MAX,
    ensures
        id < g.0.nodes.len(),
        states_known(g.0, g.1, g.2, id),
        forall|i: int|
            0 <= i < edges_from(g.0.edges, id).len() ==> has_shape::<StateNodes<'_>>(
                g,
                #[trigger] state_targets(edges_from(g.0.edges, id), id)[i],
            ),
        shape_of::<StateNodes<'_>>(g, id) == (ShapeView {
            tag: 8,
            label: g.0.nodes[id as int].state as u64,
            extra: 0,
            children: keyed_shapes(sorted_edges(g, id)),
        }),
        sorted_edges(g, id).len() == edges_from(g.0.edges, id).len(),
{
    if StateNodes::deps(g, id) is None {
        crate::shape_graph::lemma_no_deps::<StateNodes<'_>>(g, id);
    }
    let list = StateNodes::deps(g, id)->Some_0;
    let edges = edges_from(g.0.edges, id);
    assert forall|i: int| 0 <= i < list.len() implies has_shape::<StateNodes<'_>>(
        g,
        #[trigger] list[i],
    ) by {
        lemma_dependency::<StateNodes<'_>>(g, id, i);
    }
    lemma_built::<StateNodes<'_>>(g, id);
    let kids = shapes_of::<StateNodes<'_>>(g, list);
    let items = state_items_view((g.1, g.2), edges, kids);
    assert(keyed_shapes(items) =~= state_edges(g.1, g.2, edges, kids));
    lemma_keyed_shapes_ascending(items);
    lemma_keyed_total();
    items.lemma_sort_by_ensures(keyed_le());
    broadcast use group_to_multiset_ensures;

    assert(sorted_edges(g, id).len() == sorted_edges(g, id).to_multiset().len());
    assert(items.len() == items.to_multiset().len());
}

/// Where a sorted edge leads and what its shape is.
proof fn lemma_sorted_edge(g: StateGraph, id: usize, i: int)
    requires
        has_shape::<StateNodes<'_>>(g, id),
        id != usize::MAX,
        0 <= i < sorted_edges(g, id).len(),
    ensures
        ({
            let edge = sorted_edges(g, id)[i];
            let target = if edge.first == id {
                usize::MAX
            } else {
                edge.first
            };
            &&& edge.first != usize::MAX
            &&& has_shape::<StateNodes<'_>>(g, target)
            &&& has_shape::<StateProducts<'_>>((g.1, g.2), edge.second)
            &&& edge.shape == edge_shape(
                shape_of::<StateNodes<'_>>(g, target),
                shape_of::<StateProducts<'_>>((g.1, g.2), edge.second),
            )
        }),
{
    broadcast use group_to_multiset_ensures;

    lemma_state_unfold(g, id);
    let edges = edges_from(g.0.edges, id);
    let list = state_targets(edges, id);
    let kids = shapes_of::<StateNodes<'_>>(g, list);
    let items = state_items_view((g.1, g.2), edges, kids);
    lemma_keyed_total();
    items.lemma_sort_by_ensures(keyed_le());
    let edge = sorted_edges(g, id)[i];
    assert(sorted_edges(g, id).contains(edge));
    assert(sorted_edges(g, id).to_multiset().count(edge) > 0);
    assert(items.contains(edge));
    let k = choose|k: int| 0 <= k < items.len() && items[k] == edge;
    assert(has_shape::<StateNodes<'_>>(g, list[k]));
    assert(edges[k].to == edge.first);
}

/// Nodes of one state shape have edges of the same shapes, and these lead to
/// nodes of one state shape again, past products of one state shape.
proof fn lemma_edges_agree(gss: GssArena, g: StateGraph, pair: NodePair, i: int)
    requires
        gss.wf(),
        g.0 == gss@,
        has_shape::<StateNodes<'_>>(g, pair.0),
        has_shape::<StateNodes<'_>>(g, pair.1),
        pair.0 != usize::MAX,
        pair.1 != usize::MAX,
        shape_of::<StateNodes<'_>>(g, pair.0) == shape_of::<StateNodes<'_>>(g, pair.1),
        0 <= i < sorted_edges(g, pair.0).len(),
    ensures
        sorted_edges(g, pair.0).len() == sorted_edges(g, pair.1).len(),
        edge_pair(g, pair, i).0 != usize::MAX,
        edge_pair(g, pair, i).1 != usize::MAX,
        has_shape::<StateNodes<'_>>(g, edge_pair(g, pair, i).0),
        has_shape::<StateNodes<'_>>(g, edge_pair(g, pair, i).1),
        shape_of::<StateNodes<'_>>(g, edge_pair(g, pair, i).0) == shape_of::<StateNodes<'_>>(
            g,
            edge_pair(g, pair, i).1,
        ),
        shape_of::<StateProducts<'_>>((g.1, g.2), sorted_edges(g, pair.0)[i].second)
            == shape_of::<StateProducts<'_>>((g.1, g.2), sorted_edges(g, pair.1)[i].second),
{
    gss.lemma_wf();
    lemma_state_unfold(g, pair.0);
    lemma_state_unfold(g, pair.1);
    let a = sorted_edges(g, pair.0);
    let b = sorted_edges(g, pair.1);
    assert(keyed_shapes(a).len() == keyed_shapes(b).len());
    assert(keyed_shapes(a)[i] == a[i].shape);
    assert(keyed_shapes(b)[i] == b[i].shape);
    lemma_sorted_edge(g, pair.0, i);
    lemma_sorted_edge(g, pair.1, i);
    let ta = if a[i].first == pair.0 {
        usize::MAX
    } else {
        a[i].first
    };
    let tb = if b[i].first == pair.1 {
        usize::MAX
    } else {
        b[i].first
    };
    let pa = shape_of::<StateProducts<'_>>((g.1, g.2), a[i].second);
    let pb = shape_of::<StateProducts<'_>>((g.1, g.2), b[i].second);
    let sa = shape_of::<StateNodes<'_>>(g, ta);
    let sb = shape_of::<StateNodes<'_>>(g, tb);
    assert(edge_shape(sa, pa).children[0] == sa);
    assert(edge_shape(sb, pb).children[0] == sb);
    assert(edge_shape(sa, pa).children[1] == pa);
    assert(edge_shape(sb, pb).children[1] == pb);
    lemma_sentinel(g);
    if ta == usize::MAX && tb != usize::MAX {
        lemma_state_unfold(g, tb);
    }
    if tb == usize::MAX && ta != usize::MAX {
        lemma_state_unfold(g, ta);
    }
}

/// The shape that stands for a node in its own edges.
proof fn lemma_sentinel(g: StateGraph)
    ensures
        has_shape::<StateNodes<'_>>(g, usize::MAX),
        shape_of::<StateNodes<'_>>(g, usize::MAX).tag == 9,
{
    lemma_built::<StateNodes<'_>>(g, usize::MAX);
}

/// A set of pairs of node ids.
struct PairSet {
    map: HashMap<usize, Vec<usize>>,
}

impl PairSet {
    spec fn has(self, pair: NodePair) -> bool {
        self.map@.dom().contains(pair.0) && self.map@[pair.0]@.contains(pair.1)
    }

    fn new() -> (r: PairSet)
        ensures
            forall|pair: NodePair| !#[trigger] r.has(pair),
    {
        PairSet { map: HashMap::new() }
    }

    /// Adds a pair; returns false where it was there already.
    fn insert(&mut self, old_id: usize, new_id: usize) -> (r: bool)
        ensures
            r == !old(self).has((old_id, new_id)),
            forall|pair: NodePair|
                #[trigger] final(self).has(pair) <==> old(self).has(pair) || pair == (
                    old_id,
                    new_id,
                ),
    {
        broadcast use vstd::std_specs::hash::group_hash_axioms;

        let ghost before = self.map@;
        let mut list: Vec<usize> = match self.map.remove(&old_id) {
            Some(list) => list,
            None => Vec::new(),
        };
        let ghost list0 = list@;
        let mut index: usize = 0;
        let mut found = false;
        while index < list.len()
            invariant
                index <= list@.len(),
                list@ == list0,
                found == list0.take(index as int).contains(new_id),
            decreases list@.len() - index,
        {
            let ghost prefix = list0.take(index as int);
            let ghost next = list0.take(index as int + 1);
            assert(next =~= prefix.push(list0[index as int]));
            if list[index] == new_id {
                assert(next[index as int] == new_id);
                found = true;
            } else if found {
                let ghost k = choose|k: int| 0 <= k < prefix.len() && prefix[k] == new_id;
                assert(next[k] == new_id);
            } else {
                assert(!next.contains(new_id)) by {
                    if next.contains(new_id) {
                        let k = choose|k: int| 0 <= k < next.len() && next[k] == new_id;
                        assert(prefix[k] == new_id);
                    }
                }
            }
            index += 1;
        }
        assert(list0.take(list0.len() as int) =~= list0);
        if !found {
            list.push(new_id);
        }
        let ghost list1 = list@;
        self.map.insert(old_id, list);
        proof {
            assert forall|pair: NodePair| #[trigger] self.has(pair) <==> old(self).has(pair)
                || pair == (old_id, new_id) by {
                if pair.0 == old_id {
                    assert(self.map@[pair.0]@ == list1);
                    if !found {
                        assert(list1 == list0.push(new_id));
                        assert(list1[list0.len() as int] == new_id);
                        if list0.contains(pair.1) {
                            let k = choose|k: int| 0 <= k < list0.len() && list0[k] == pair.1;
                            assert(list1[k] == pair.1);
                        }
                        if list1.contains(pair.1) && pair.1 != new_id {
                            let k = choose|k: int| 0 <= k < list1.len() && list1[k] == pair.1;
                            assert(list0[k] == pair.1);
                        }
                    }
                }
            }
        }
        !found
    }
}

/// The pairs below the bound that were not seen, as numbers.
spec fn unseen(n: int, seen: PairSet) -> Set<int> {
    vstd::set_lib::set_int_range(0, n * n).filter(
        |k: int| !seen.has(((k / n) as usize, (k % n) as usize)),
    )
}

proof fn lemma_unseen_less(n: int, before: PairSet, after: PairSet, pair: NodePair)
    requires
        0 < n <= usize::MAX,
        pair.0 < n,
        pair.1 < n,
        !before.has(pair),
        forall|other: NodePair| #[trigger] after.has(other) <==> before.has(other) || other == pair,
    ensures
        unseen(n, after).len() < unseen(n, before).len(),
        unseen(n, before).finite(),
{
    vstd::set_lib::lemma_int_range(0, n * n);
    vstd::set_lib::set_int_range(0, n * n).lemma_len_filter(
        |k: int| !before.has(((k / n) as usize, (k % n) as usize)),
    );
    let k = pair.0 * n + pair.1;
    assert(k / n == pair.0 && k % n == pair.1 && 0 <= k < n * n) by (nonlinear_arith)
        requires
            k == pair.0 * n + pair.1,
            0 <= pair.0 < n,
            0 <= pair.1 < n,
    ;
    let prior = unseen(n, before);
    assert(prior.contains(k));
    assert(unseen(n, after).subset_of(prior.remove(k)));
    vstd::set_lib::lemma_len_subset(unseen(n, after), prior.remove(k));
}

/// What holds while pairs are compared: everything seen or on the stack is
/// compared and agrees, what the edges of seen pairs lead to is seen or on the
/// stack, and the map holds what the seen pairs showed.
#[verifier::opaque]
spec fn walk_wf(
    g: StateGraph,
    roots: Seq<NodePair>,
    stack: Seq<NodePair>,
    seen: PairSet,
    map: Map<usize, usize>,
) -> bool {
    &&& forall|k: int|
        0 <= k < stack.len() ==> compared(g, roots, #[trigger] stack[k]) && agrees(g, stack[k])
    &&& forall|pair: NodePair| #[trigger] seen.has(pair) ==> compared(g, roots, pair) && agrees(g, pair)
    &&& forall|k: int|
        0 <= k < roots.len() ==> seen.has(#[trigger] roots[k]) || stack.contains(roots[k])
    &&& forall|pair: NodePair, i: int|
        #![trigger seen.has(pair), edge_pair(g, pair, i)]
        seen.has(pair) && 0 <= i < sorted_edges(g, pair.0).len() ==> seen.has(
            edge_pair(g, pair, i),
        ) || stack.contains(edge_pair(g, pair, i))
    &&& forall|pair: NodePair, i: int|
        #![trigger seen.has(pair), sorted_edges(g, pair.0)[i]]
        seen.has(pair) && 0 <= i < sorted_edges(g, pair.0).len() && sorted_edges(g, pair.0)[i].second
            != sorted_edges(g, pair.1)[i].second ==> map.dom().contains(
            sorted_edges(g, pair.0)[i].second,
        )
    &&& forall|product: usize|
        #[trigger] map.dom().contains(product) ==> map[product] != product && shown(
            g,
            roots,
            product,
            map[product],
        )
}

/// Both nodes of a pair have the same state shape.
spec fn agrees(g: StateGraph, pair: NodePair) -> bool {
    &&& pair.0 != usize::MAX
    &&& pair.1 != usize::MAX
    &&& has_shape::<StateNodes<'_>>(g, pair.0)
    &&& has_shape::<StateNodes<'_>>(g, pair.1)
    &&& shape_of::<StateNodes<'_>>(g, pair.0) == shape_of::<StateNodes<'_>>(g, pair.1)
}

/// Some compared pair has an old product where it has a new one.
spec fn shown(g: StateGraph, roots: Seq<NodePair>, old: usize, new: usize) -> bool {
    exists|pair: NodePair, i: int|
        #![trigger compared(g, roots, pair), sorted_edges(g, pair.0)[i]]
        compared(g, roots, pair) && 0 <= i < sorted_edges(g, pair.0).len() && sorted_edges(
            g,
            pair.0,
        )[i].second == old && sorted_edges(g, pair.1)[i].second == new
}

/// What edges of compared pairs lead to is compared.
proof fn lemma_compared_step(g: StateGraph, roots: Seq<NodePair>, pair: NodePair, i: int)
    requires
        compared(g, roots, pair),
        0 <= i < sorted_edges(g, pair.0).len(),
    ensures
        compared(g, roots, edge_pair(g, pair, i)),
{
    let steps = choose|steps: nat| #[trigger] compared_within(g, roots, pair, steps);
    let next = edge_pair(g, pair, i);
    assert(compared_within(g, roots, next, steps + 1));
}

/// When the stack is empty, all compared pairs were seen.
proof fn lemma_all_seen(
    g: StateGraph,
    roots: Seq<NodePair>,
    seen: PairSet,
    map: Map<usize, usize>,
    pair: NodePair,
    steps: nat,
)
    requires
        walk_wf(g, roots, Seq::empty(), seen, map),
        compared_within(g, roots, pair, steps),
    ensures
        seen.has(pair),
    decreases steps,
{
    reveal(walk_wf);
    let none = Seq::<NodePair>::empty();
    if roots.contains(pair) {
        let k = choose|k: int| 0 <= k < roots.len() && roots[k] == pair;
        assert(seen.has(roots[k]) || none.contains(roots[k]));
    } else {
        let (from, i) = choose|from: NodePair, i: int|
            #![trigger edge_pair(g, from, i)]
            compared_within(g, roots, from, (steps - 1) as nat) && 0 <= i < sorted_edges(
                g,
                from.0,
            ).len() && pair == edge_pair(g, from, i);
        lemma_all_seen(g, roots, seen, map, from, (steps - 1) as nat);
        assert(seen.has(from));
        assert(seen.has(edge_pair(g, from, i)) || none.contains(edge_pair(g, from, i)));
    }
}

proof fn lemma_walk_done(g: StateGraph, roots: Seq<NodePair>, seen: PairSet, map: Map<usize, usize>)
    requires
        walk_wf(g, roots, Seq::empty(), seen, map),
        shown_last(g, roots, map),
    ensures
        seam_map(g, roots, map),
{
    assert forall|pair: NodePair, i: int|
        #![trigger compared(g, roots, pair), sorted_edges(g, pair.0)[i]]
        compared(g, roots, pair) && 0 <= i < sorted_edges(g, pair.0).len() && sorted_edges(
            g,
            pair.0,
        )[i].second != sorted_edges(g, pair.1)[i].second implies map.dom().contains(
        sorted_edges(g, pair.0)[i].second,
    ) by {
        let steps = choose|steps: nat| #[trigger] compared_within(g, roots, pair, steps);
        lemma_all_seen(g, roots, seen, map, pair, steps);
        reveal(walk_wf);
        assert(seen.has(pair));
    }
    reveal(walk_wf);
    assert forall|product: usize| #[trigger] map.dom().contains(product) implies map[product]
        != product && exists|pair: NodePair, i: int|
        #![trigger compared(g, roots, pair), sorted_edges(g, pair.0)[i]]
        compared(g, roots, pair) && 0 <= i < sorted_edges(g, pair.0).len() && sorted_edges(
            g,
            pair.0,
        )[i].second == product && sorted_edges(g, pair.1)[i].second == map[product] by {
        assert(shown(g, roots, product, map[product]));
    }
}

/// The state shapes of roots, each with its root; none where a root has none.
fn state_root_items(
    graph: &mut StateNodes<'_>,
    roots: &[GssNodeId],
    memo: &mut HashMap<usize, Shape>,
) -> (r: Option<Vec<Keyed>>)
    requires
        old(graph).inv(),
        memo_wf::<StateNodes<'_>>(old(graph).graph(), old(memo)@),
    ensures
        final(graph).inv(),
        final(graph).graph() == old(graph).graph(),
        memo_wf::<StateNodes<'_>>(old(graph).graph(), final(memo)@),
        r is Some <==> roots_have_states(old(graph).graph(), roots@),
        r is Some ==> keyed_views(r->Some_0@) == state_root_keys(old(graph).graph(), roots@)
            && forall|i: int| 0 <= i < r->Some_0@.len() ==> (#[trigger] r->Some_0@[i]).shape.wf(),
{
    let ghost g = graph.graph();
    let mut items: Vec<Keyed> = Vec::new();
    let mut fresh: Vec<usize> = Vec::new();
    let mut index: usize = 0;
    while index < roots.len()
        invariant
            g == old(graph).graph(),
            index <= roots@.len(),
            graph.inv(),
            graph.graph() == g,
            memo_wf::<StateNodes<'_>>(g, memo@),
            items@.len() == index,
            forall|i: int| 0 <= i < index ==> (#[trigger] items@[i]).shape.wf(),
            forall|i: int|
                0 <= i < index ==> (#[trigger] items@[i]).shape.view() == shape_of::<
                    StateNodes<'_>,
                >(g, roots@[i]) && items@[i].first == roots@[i] && items@[i].second == 0,
            forall|i: int|
                0 <= i < index ==> #[trigger] roots@[i] != usize::MAX && has_shape::<
                    StateNodes<'_>,
                >(g, roots@[i]),
        decreases roots@.len() - index,
    {
        let id: usize = roots[index];
        if id == usize::MAX {
            assert(roots@[index as int] == usize::MAX);
            return None;
        }
        match shape_key(graph, id, memo, &mut fresh) {
            Some(shape) => {
                items.push(Keyed { shape, first: id, second: 0 });
            },
            None => {
                assert(!has_shape::<StateNodes<'_>>(g, roots@[index as int]));
                return None;
            },
        }
        index += 1;
    }
    assert(keyed_views(items@) =~= state_root_keys(g, roots@));
    Some(items)
}

/// The edges of a node in the order of their shapes.
fn sorted_items(
    gss: &GssArena,
    graph: &mut StateNodes<'_>,
    memo: &mut HashMap<usize, Shape>,
    id: GssNodeId,
) -> (r: Vec<Keyed>)
    requires
        gss.wf(),
        old(graph).inv(),
        old(graph).graph().0 == gss@,
        memo_wf::<StateNodes<'_>>(old(graph).graph(), old(memo)@),
        id != usize::MAX,
        has_shape::<StateNodes<'_>>(old(graph).graph(), id),
    ensures
        final(graph).inv(),
        final(graph).graph() == old(graph).graph(),
        memo_wf::<StateNodes<'_>>(old(graph).graph(), final(memo)@),
        keyed_views(r@) == sorted_edges(old(graph).graph(), id),
{
    let ghost g = graph.graph();
    proof {
        lemma_state_unfold(g, id);
    }
    let edges = gss.outgoing_edges(id);
    let ghost targets = state_targets(edges@, id);
    let mut kids: Vec<Shape> = Vec::new();
    let mut fresh: Vec<usize> = Vec::new();
    let mut index: usize = 0;
    while index < edges.len()
        invariant
            g == old(graph).graph(),
            graph.inv(),
            graph.graph() == g,
            memo_wf::<StateNodes<'_>>(g, memo@),
            index <= edges@.len(),
            targets == state_targets(edges@, id),
            kids@.len() == index,
            forall|i: int| 0 <= i < kids@.len() ==> (#[trigger] kids@[i]).wf(),
            forall|i: int|
                0 <= i < kids@.len() ==> (#[trigger] kids@[i]).view() == shape_of::<
                    StateNodes<'_>,
                >(g, targets[i]),
            forall|i: int|
                0 <= i < edges@.len() ==> has_shape::<StateNodes<'_>>(g, #[trigger] targets[i]),
        decreases edges@.len() - index,
    {
        let edge = edges[index];
        let target: usize = if edge.to == id {
            usize::MAX
        } else {
            edge.to
        };
        assert(target == targets[index as int]);
        let shape = shape_key(graph, target, memo, &mut fresh).unwrap();
        kids.push(shape);
        index += 1;
    }
    assert(views(kids@) =~= shapes_of::<StateNodes<'_>>(g, targets));
    proof {
        assert forall|i: int| 0 <= i < edges@.len() implies has_shape::<StateProducts<'_>>(
            (g.1, g.2),
            (#[trigger] edges@[i]).product,
        ) by {
            assert(edges_from(g.0.edges, id)[i] == edges@[i]);
        }
    }
    let items = state_items(graph.products, graph.trees, &mut graph.memo, &edges, &kids);
    sort_keyed(items)
}

/// Follows the sorted edges of a pair: notes where the products differ and
/// stacks the pairs that the edges lead to.
fn follow_pair(
    old_edges: &Vec<Keyed>,
    new_edges: &Vec<Keyed>,
    map: &mut HashMap<usize, usize>,
    stack: &mut Vec<NodePair>,
)
    requires
        old_edges@.len() == new_edges@.len(),
    ensures
        ({
            let a = keyed_views(old_edges@);
            let b = keyed_views(new_edges@);
            &&& final(stack)@ == old(stack)@ + Seq::new(
                a.len(),
                |i: int| (a[i].first, b[i].first),
            )
            &&& forall|product: usize|
                #[trigger] final(map)@.dom().contains(product) <==> old(map)@.dom().contains(
                    product,
                ) || exists|i: int|
                    0 <= i < a.len() && (#[trigger] a[i]).second == product && b[i].second
                        != product
            &&& forall|product: usize|
                #[trigger] final(map)@.dom().contains(product) ==> (old(map)@.dom().contains(
                    product,
                ) && final(map)@[product] == old(map)@[product]) || exists|i: int|
                    0 <= i < a.len() && (#[trigger] a[i]).second == product && b[i].second
                        != product && final(map)@[product] == b[i].second
            &&& final(map)@ == edges_noted(old(map)@, a, b, a.len() as int)
        }),
{
    broadcast use vstd::std_specs::hash::group_hash_axioms;

    let ghost a = keyed_views(old_edges@);
    let ghost b = keyed_views(new_edges@);
    let ghost map0 = map@;
    let ghost stack0 = stack@;
    let mut index: usize = 0;
    assert(stack@ =~= stack0 + Seq::new(0, |i: int| (a[i].first, b[i].first)));
    while index < old_edges.len()
        invariant
            index <= old_edges@.len(),
            old_edges@.len() == new_edges@.len(),
            a == keyed_views(old_edges@),
            b == keyed_views(new_edges@),
            map0 == old(map)@,
            map@ == edges_noted(map0, a, b, index as int),
            stack0 == old(stack)@,
            stack@ == stack0 + Seq::new(index as nat, |i: int| (a[i].first, b[i].first)),
            forall|product: usize|
                #[trigger] map@.dom().contains(product) <==> map0.dom().contains(product)
                    || exists|i: int|
                    0 <= i < index && (#[trigger] a[i]).second == product && b[i].second
                        != product,
            forall|product: usize|
                #[trigger] map@.dom().contains(product) ==> (map0.dom().contains(product)
                    && map@[product] == map0[product]) || exists|i: int|
                    0 <= i < index && (#[trigger] a[i]).second == product && b[i].second
                        != product && map@[product] == b[i].second,
        decreases old_edges@.len() - index,
    {
        broadcast use vstd::std_specs::hash::group_hash_axioms;

        let one = &old_edges[index];
        let other = &new_edges[index];
        let ghost before = map@;
        assert(a[index as int] == one.view());
        assert(b[index as int] == other.view());
        if one.second != other.second {
            map.insert(one.second, other.second);
        }
        proof {
            assert forall|product: usize|
                #[trigger] map@.dom().contains(product) <==> map0.dom().contains(product)
                    || exists|i: int|
                    0 <= i < index + 1 && (#[trigger] a[i]).second == product && b[i].second
                        != product by {
                assert(before.dom().contains(product) ==> map@.dom().contains(product));
                if map@.dom().contains(product) {
                    if before.dom().contains(product) {
                    } else {
                        assert(a[index as int].second == product);
                    }
                } else {
                    assert(!before.dom().contains(product));
                }
            }
            assert forall|product: usize| #[trigger] map@.dom().contains(product) implies (
            map0.dom().contains(product) && map@[product] == map0[product]) || exists|i: int|
                0 <= i < index + 1 && (#[trigger] a[i]).second == product && b[i].second != product
                    && map@[product] == b[i].second by {
                if one.second != other.second && product == one.second {
                    assert(a[index as int].second == product);
                } else {
                    assert(before.dom().contains(product));
                    assert(map@[product] == before[product]);
                }
            }
        }
        stack.push((one.first, other.first));
        index += 1;
        assert(stack@ =~= stack0 + Seq::new(index as nat, |i: int| (a[i].first, b[i].first)));
    }
}

/// One step of the walk keeps what holds of it.
proof fn lemma_walk_step(
    g: StateGraph,
    roots: Seq<NodePair>,
    gss: GssArena,
    pair: NodePair,
    stacks: (Seq<NodePair>, Seq<NodePair>),
    seens: (PairSet, PairSet),
    maps: (Map<usize, usize>, Map<usize, usize>),
)
    requires
        gss.wf(),
        g.0 == gss@,
        walk_wf(g, roots, stacks.0.push(pair), seens.0, maps.0),
        forall|other: NodePair|
            #[trigger] seens.1.has(other) <==> seens.0.has(other) || other == pair,
        stacks.1 == stacks.0 + Seq::new(
            sorted_edges(g, pair.0).len(),
            |i: int| (sorted_edges(g, pair.0)[i].first, sorted_edges(g, pair.1)[i].first),
        ),
        forall|product: usize|
            #[trigger] maps.1.dom().contains(product) <==> maps.0.dom().contains(product)
                || exists|i: int|
                0 <= i < sorted_edges(g, pair.0).len() && (#[trigger] sorted_edges(g, pair.0)[i]).second
                    == product && sorted_edges(g, pair.1)[i].second != product,
        forall|product: usize|
            #[trigger] maps.1.dom().contains(product) ==> (maps.0.dom().contains(product)
                && maps.1[product] == maps.0[product]) || exists|i: int|
                0 <= i < sorted_edges(g, pair.0).len() && (#[trigger] sorted_edges(g, pair.0)[i]).second
                    == product && sorted_edges(g, pair.1)[i].second != product && maps.1[product]
                    == sorted_edges(g, pair.1)[i].second,
    ensures
        walk_wf(g, roots, stacks.1, seens.1, maps.1),
{
    reveal(walk_wf);
    let old_stack = stacks.0.push(pair);
    let a = sorted_edges(g, pair.0);
    let b = sorted_edges(g, pair.1);
    assert(old_stack[stacks.0.len() as int] == pair);
    assert(compared(g, roots, pair) && agrees(g, pair));
    assert forall|i: int| 0 <= i < a.len() implies compared(g, roots, #[trigger] edge_pair(g, pair, i))
        && agrees(g, edge_pair(g, pair, i)) && stacks.1.contains(edge_pair(g, pair, i)) by {
        lemma_compared_step(g, roots, pair, i);
        lemma_edges_agree(gss, g, pair, i);
        assert(stacks.1[stacks.0.len() + i] == edge_pair(g, pair, i));
    }
    assert forall|k: int| 0 <= k < stacks.1.len() implies compared(g, roots, #[trigger] stacks.1[k])
        && agrees(g, stacks.1[k]) by {
        if k < stacks.0.len() {
            assert(stacks.1[k] == old_stack[k]);
        } else {
            assert(stacks.1[k] == edge_pair(g, pair, k - stacks.0.len()));
        }
    }
    assert forall|other: NodePair| old_stack.contains(other) implies seens.1.has(other)
        || #[trigger] stacks.1.contains(other) by {
        let k = choose|k: int| 0 <= k < old_stack.len() && old_stack[k] == other;
        if k < stacks.0.len() {
            assert(stacks.1[k] == other);
        }
    }
    assert forall|k: int| 0 <= k < roots.len() implies seens.1.has(#[trigger] roots[k])
        || stacks.1.contains(roots[k]) by {
        assert(seens.0.has(roots[k]) || old_stack.contains(roots[k]));
    }
    assert forall|other: NodePair, i: int|
        #![trigger seens.1.has(other), edge_pair(g, other, i)]
        seens.1.has(other) && 0 <= i < sorted_edges(g, other.0).len() implies seens.1.has(
        edge_pair(g, other, i),
    ) || stacks.1.contains(edge_pair(g, other, i)) by {
        if seens.0.has(other) {
            assert(seens.0.has(edge_pair(g, other, i)) || old_stack.contains(
                edge_pair(g, other, i),
            ));
        }
    }
    assert forall|other: NodePair, i: int|
        #![trigger seens.1.has(other), sorted_edges(g, other.0)[i]]
        seens.1.has(other) && 0 <= i < sorted_edges(g, other.0).len() && sorted_edges(g, other.0)[i].second
            != sorted_edges(g, other.1)[i].second implies maps.1.dom().contains(
        sorted_edges(g, other.0)[i].second,
    ) by {
        if seens.0.has(other) {
            assert(maps.0.dom().contains(sorted_edges(g, other.0)[i].second));
        }
    }
    assert forall|product: usize| #[trigger] maps.1.dom().contains(product) implies maps.1[product]
        != product && shown(g, roots, product, maps.1[product]) by {
        if maps.0.dom().contains(product) && maps.1[product] == maps.0[product] {
            assert(shown(g, roots, product, maps.0[product]));
        } else {
            let i = choose|i: int|
                0 <= i < a.len() && (#[trigger] a[i]).second == product && b[i].second != product
                    && maps.1[product] == b[i].second;
            assert(compared(g, roots, pair));
            assert(sorted_edges(g, pair.0)[i].second == product);
        }
    }
}

/// The root pairs agree where the sorted roots have the same shapes.
proof fn lemma_roots_agree(g: StateGraph, old_roots: Seq<usize>, new_roots: Seq<usize>, k: int)
    requires
        states_match(g, old_roots, new_roots),
        0 <= k < root_pairs(g, old_roots, new_roots).len(),
    ensures
        agrees(g, root_pairs(g, old_roots, new_roots)[k]),
{
    broadcast use group_to_multiset_ensures;

    let keys0 = state_root_keys(g, old_roots);
    let keys1 = state_root_keys(g, new_roots);
    let a = keyed_ascending(keys0);
    let b = keyed_ascending(keys1);
    lemma_keyed_total();
    keys0.lemma_sort_by_ensures(keyed_le());
    keys1.lemma_sort_by_ensures(keyed_le());
    assert(a.len() == a.to_multiset().len() == keys0.len());
    assert(b.len() == b.to_multiset().len() == keys1.len());
    assert(a.contains(a[k]) && b.contains(b[k]));
    assert(a.to_multiset().count(a[k]) > 0);
    assert(b.to_multiset().count(b[k]) > 0);
    assert(keys0.contains(a[k]) && keys1.contains(b[k]));
    let i = choose|i: int| 0 <= i < keys0.len() && keys0[i] == a[k];
    let j = choose|j: int| 0 <= j < keys1.len() && keys1[j] == b[k];
    assert(old_roots[i] == a[k].first);
    assert(new_roots[j] == b[k].first);
    assert(keyed_shapes(a)[k] == keyed_shapes(b)[k]);
}

/// The walk starts at the root pairs.
proof fn lemma_walk_start(
    g: StateGraph,
    old_roots: Seq<usize>,
    new_roots: Seq<usize>,
    seen: PairSet,
    map: Map<usize, usize>,
)
    requires
        states_match(g, old_roots, new_roots),
        forall|pair: NodePair| !#[trigger] seen.has(pair),
        map == Map::<usize, usize>::empty(),
    ensures
        ({
            let pairs = root_pairs(g, old_roots, new_roots);
            walk_wf(g, pairs, pairs, seen, map)
        }),
{
    reveal(walk_wf);
    let pairs = root_pairs(g, old_roots, new_roots);
    assert forall|k: int| 0 <= k < pairs.len() implies compared(g, pairs, #[trigger] pairs[k])
        && agrees(g, pairs[k]) && pairs.contains(pairs[k]) by {
        lemma_roots_agree(g, old_roots, new_roots, k);
        assert(compared_within(g, pairs, pairs[k], 0));
    }
}

/// Compared pairs agree.
proof fn lemma_compared_agrees(
    gss: GssArena,
    g: StateGraph,
    old_roots: Seq<usize>,
    new_roots: Seq<usize>,
    pair: NodePair,
    steps: nat,
)
    requires
        gss.wf(),
        g.0 == gss@,
        states_match(g, old_roots, new_roots),
        compared_within(g, root_pairs(g, old_roots, new_roots), pair, steps),
    ensures
        agrees(g, pair),
    decreases steps,
{
    let roots = root_pairs(g, old_roots, new_roots);
    if roots.contains(pair) {
        let k = choose|k: int| 0 <= k < roots.len() && roots[k] == pair;
        lemma_roots_agree(g, old_roots, new_roots, k);
    } else {
        let (from, i) = choose|from: NodePair, i: int|
            #![trigger edge_pair(g, from, i)]
            compared_within(g, roots, from, (steps - 1) as nat) && 0 <= i < sorted_edges(
                g,
                from.0,
            ).len() && pair == edge_pair(g, from, i);
        lemma_compared_agrees(gss, g, old_roots, new_roots, from, (steps - 1) as nat);
        lemma_edges_agree(gss, g, from, i);
    }
}

/// A product of the old stacks and the one that stands in its place have the
/// same state shape: no parser decision tells them apart.
pub proof fn lemma_seam_shapes(
    gss: GssArena,
    g: StateGraph,
    old_roots: Seq<usize>,
    new_roots: Seq<usize>,
    map: Map<usize, usize>,
    product: usize,
)
    requires
        gss.wf(),
        g.0 == gss@,
        states_match(g, old_roots, new_roots),
        seam_map(g, root_pairs(g, old_roots, new_roots), map),
        map.dom().contains(product),
    ensures
        map[product] != product,
        has_shape::<StateProducts<'_>>((g.1, g.2), product),
        has_shape::<StateProducts<'_>>((g.1, g.2), map[product]),
        shape_of::<StateProducts<'_>>((g.1, g.2), product) == shape_of::<StateProducts<'_>>(
            (g.1, g.2),
            map[product],
        ),
{
    let roots = root_pairs(g, old_roots, new_roots);
    let (pair, i) = choose|pair: NodePair, i: int|
        #![trigger compared(g, roots, pair), sorted_edges(g, pair.0)[i]]
        compared(g, roots, pair) && 0 <= i < sorted_edges(g, pair.0).len() && sorted_edges(
            g,
            pair.0,
        )[i].second == product && sorted_edges(g, pair.1)[i].second == map[product];
    let steps = choose|steps: nat| #[trigger] compared_within(g, roots, pair, steps);
    lemma_compared_agrees(gss, g, old_roots, new_roots, pair, steps);
    lemma_edges_agree(gss, g, pair, i);
    lemma_sorted_edge(g, pair.0, i);
    lemma_sorted_edge(g, pair.1, i);
}

/// Two sorted lists have the same shapes.
fn same_shapes(a: &Vec<Keyed>, b: &Vec<Keyed>) -> (r: bool)
    requires
        a@.len() == b@.len(),
        forall|i: int| 0 <= i < a@.len() ==> (#[trigger] a@[i]).shape.wf(),
        forall|i: int| 0 <= i < b@.len() ==> (#[trigger] b@[i]).shape.wf(),
    ensures
        r == (keyed_shapes(keyed_views(a@)) == keyed_shapes(keyed_views(b@))),
{
    let ghost x = keyed_shapes(keyed_views(a@));
    let ghost y = keyed_shapes(keyed_views(b@));
    let mut index: usize = 0;
    while index < a.len()
        invariant
            index <= a@.len(),
            a@.len() == b@.len(),
            x == keyed_shapes(keyed_views(a@)),
            y == keyed_shapes(keyed_views(b@)),
            forall|i: int| 0 <= i < a@.len() ==> (#[trigger] a@[i]).shape.wf(),
            forall|i: int| 0 <= i < b@.len() ==> (#[trigger] b@[i]).shape.wf(),
            forall|i: int| 0 <= i < index ==> x[i] == y[i],
        decreases a@.len() - index,
    {
        assert(a@[index as int].shape.wf() && b@[index as int].shape.wf());
        assert(x[index as int] == a@[index as int].shape.view());
        assert(y[index as int] == b@[index as int].shape.view());
        if !a[index].shape.same(&b[index].shape) {
            return false;
        }
        index += 1;
    }
    assert(x =~= y);
    true
}

impl GssArena {
    /// The state shape of a node, with what is remembered.
    pub fn state_node_key(
        &self,
        id: GssNodeId,
        products: &ProductArena,
        trees: &TreeArena,
        cache: &mut CanonicalFrontierCache,
    ) -> (r: Option<Shape>)
        requires
            self.wf(),
            products.wf(),
            trees.wf(),
            old(cache).state_wf((self@, products@, trees@)),
        ensures
            final(cache).state_wf((self@, products@, trees@)),
            final(cache).nodes@ == old(cache).nodes@,
            final(cache).products@ == old(cache).products@,
            r is Some <==> id != usize::MAX && has_shape::<StateNodes<'_>>(
                (self@, products@, trees@),
                id,
            ),
            r is Some ==> r->Some_0.wf() && r->Some_0.view() == shape_of::<StateNodes<'_>>(
                (self@, products@, trees@),
                id,
            ),
    {
        if id == usize::MAX {
            return None;
        }
        let mut product_memo: HashMap<usize, Shape> = HashMap::new();
        core::mem::swap(&mut product_memo, &mut cache.state_products);
        let mut graph = StateNodes { gss: self, products, trees, memo: product_memo };
        let mut fresh: Vec<usize> = Vec::new();
        let r = shape_key(&mut graph, id, &mut cache.state_nodes, &mut fresh);
        core::mem::swap(&mut graph.memo, &mut cache.state_products);
        r
    }

    /// Matches two sets of active nodes at the level of states: which product
    /// of the new stacks stands in the place of which product of the old ones.
    pub fn match_state_frontiers(
        &self,
        old_active: &[GssNodeId],
        new_active: &[GssNodeId],
        products: &ProductArena,
        trees: &TreeArena,
        cache: &mut CanonicalFrontierCache,
    ) -> (r: Option<HashMap<ProductId, ProductId>>)
        requires
            self.wf(),
            products.wf(),
            trees.wf(),
            old(cache).state_wf((self@, products@, trees@)),
        ensures
            final(cache).state_wf((self@, products@, trees@)),
            final(cache).nodes@ == old(cache).nodes@,
            final(cache).products@ == old(cache).products@,
            r is Some <==> states_match((self@, products@, trees@), old_active@, new_active@),
            r is Some ==> seam_map(
                (self@, products@, trees@),
                root_pairs((self@, products@, trees@), old_active@, new_active@),
                r->Some_0@,
            ),
    {
        if old_active.len() != new_active.len() {
            return None;
        }
        let mut product_memo: HashMap<usize, Shape> = HashMap::new();
        core::mem::swap(&mut product_memo, &mut cache.state_products);
        let mut graph = StateNodes { gss: self, products, trees, memo: product_memo };
        let r = match_states(self, &mut graph, &mut cache.state_nodes, old_active, new_active);
        core::mem::swap(&mut graph.memo, &mut cache.state_products);
        r
    }
}

/// Compares two sets of nodes of one size and walks along their edges.
fn match_states(
    gss: &GssArena,
    graph: &mut StateNodes<'_>,
    memo: &mut HashMap<usize, Shape>,
    old_active: &[GssNodeId],
    new_active: &[GssNodeId],
) -> (r: Option<HashMap<ProductId, ProductId>>)
    requires
        gss.wf(),
        old(graph).inv(),
        old(graph).graph().0 == gss@,
        memo_wf::<StateNodes<'_>>(old(graph).graph(), old(memo)@),
        old_active@.len() == new_active@.len(),
    ensures
        final(graph).inv(),
        final(graph).graph() == old(graph).graph(),
        memo_wf::<StateNodes<'_>>(old(graph).graph(), final(memo)@),
        r is Some <==> states_match(old(graph).graph(), old_active@, new_active@),
        r is Some ==> seam_map(
            old(graph).graph(),
            root_pairs(old(graph).graph(), old_active@, new_active@),
            r->Some_0@,
        ),
{
    let ghost g = graph.graph();
    let old_roots = match state_root_items(graph, old_active, memo) {
        Some(items) => items,
        None => {
            return None;
        },
    };
    let new_roots = match state_root_items(graph, new_active, memo) {
        Some(items) => items,
        None => {
            return None;
        },
    };
    let ghost old_unsorted = old_roots@;
    let ghost new_unsorted = new_roots@;
    let old_items = sort_keyed(old_roots);
    let new_items = sort_keyed(new_roots);
    proof {
        lemma_sorted_shapes_wf(old_unsorted, old_items@);
        lemma_sorted_shapes_wf(new_unsorted, new_items@);
    }
    proof {
        assert(keyed_shapes(keyed_views(old_items@)).len() == old_items@.len());
        assert(keyed_shapes(keyed_views(new_items@)).len() == new_items@.len());
    }
    if old_items.len() != new_items.len() || !same_shapes(&old_items, &new_items) {
        return None;
    }
    let ghost pairs = root_pairs(g, old_active@, new_active@);
    let mut map: HashMap<usize, usize> = HashMap::new();
    let mut stack: Vec<NodePair> = Vec::new();
    let mut index: usize = 0;
    while index < old_items.len()
        invariant
            index <= old_items@.len(),
            old_items@.len() == new_items@.len(),
            keyed_views(old_items@) == keyed_ascending(state_root_keys(g, old_active@)),
            keyed_views(new_items@) == keyed_ascending(state_root_keys(g, new_active@)),
            pairs == root_pairs(g, old_active@, new_active@),
            stack@ == pairs.take(index as int),
        decreases old_items@.len() - index,
    {
        assert(keyed_views(old_items@)[index as int] == old_items@[index as int].view());
        assert(keyed_views(new_items@)[index as int] == new_items@[index as int].view());
        stack.push((old_items[index].first, new_items[index].first));
        index += 1;
        assert(stack@ =~= pairs.take(index as int));
    }
    assert(pairs.take(index as int) =~= pairs);
    let mut seen = PairSet::new();
    let ghost mut steps: nat = 0;
    let ghost mut order: Seq<NodePair> = Seq::empty();
    proof {
        assert(walk_after(g, pairs, 0) == (pairs, order));
        assert(map@ =~= pairs_noted(g, order));
        lemma_walk_start(g, old_active@, new_active@, seen, map@);
    }
    let count: usize = gss.node_count();
    while stack.len() > 0
        invariant
            gss.wf(),
            g == old(graph).graph(),
            graph.inv(),
            graph.graph() == g,
            g.0 == gss@,
            count == g.0.nodes.len(),
            memo_wf::<StateNodes<'_>>(g, memo@),
            walk_wf(g, pairs, stack@, seen, map@),
            walk_after(g, pairs, steps) == (stack@, order),
            map@ == pairs_noted(g, order),
            forall|pair: NodePair| #[trigger] seen.has(pair) <==> order.contains(pair),
        decreases unseen(count as int, seen).len(), stack@.len(),
    {
        let ghost before = stack@;
        let ghost seen0 = seen;
        let ghost map0 = map@;
        let pair = stack.pop().unwrap();
        let ghost rest = stack@;
        proof {
            assert(before =~= rest.push(pair));
            assert(before[rest.len() as int] == pair);
            assert(agrees(g, pair)) by {
                reveal(walk_wf);
            }
            lemma_state_unfold(g, pair.0);
            lemma_state_unfold(g, pair.1);
        }
        if seen.insert(pair.0, pair.1) {
            let old_edges = sorted_items(gss, graph, memo, pair.0);
            let new_edges = sorted_items(gss, graph, memo, pair.1);
            proof {
                assert(keyed_shapes(sorted_edges(g, pair.0)).len() == keyed_shapes(
                    sorted_edges(g, pair.1),
                ).len());
                lemma_unseen_less(count as int, seen0, seen, pair);
            }
            follow_pair(&old_edges, &new_edges, &mut map, &mut stack);
            proof {
                let order0 = order;
                assert(order0.push(pair).drop_last() =~= order0);
                order = order0.push(pair);
                assert(map@ == pairs_noted(g, order));
                assert forall|other: NodePair| #[trigger] seen.has(other) <==> order.contains(
                    other,
                ) by {
                    if order.contains(other) && other != pair {
                        let k = order.index_of(other);
                        assert(order0[k] == other);
                    }
                    if order0.contains(other) {
                        let k = order0.index_of(other);
                        assert(order[k] == other);
                    }
                    assert(order[order0.len() as int] == pair);
                }
                assert(before.drop_last() =~= rest);
                assert(before.last() == pair);
                assert(stack@ =~= rest + Seq::new(
                    sorted_edges(g, pair.0).len(),
                    |i: int| edge_pair(g, pair, i),
                ));
                steps = steps + 1;
                assert(walk_after(g, pairs, steps) == (stack@, order));
                lemma_walk_step(
                    g,
                    pairs,
                    *gss,
                    pair,
                    (rest, stack@),
                    (seen0, seen),
                    (map0, map@),
                );
            }
        } else {
            proof {
                assert(before.drop_last() =~= rest);
                assert(before.last() == pair);
                assert forall|other: NodePair| #[trigger] seen.has(other) <==> order.contains(
                    other,
                ) by {
                    assert(seen0.has(other) <==> order.contains(other));
                }
                steps = steps + 1;
                assert(walk_after(g, pairs, steps) == (stack@, order));
                lemma_walk_skip(g, pairs, pair, rest, seen0, seen, map@);
                assert(unseen(count as int, seen) =~= unseen(count as int, seen0));
            }
        }
    }
    proof {
        assert(stack@ =~= Seq::<NodePair>::empty());
        assert(walk_after(g, pairs, steps).0.len() == 0);
        lemma_walk_done(g, pairs, seen, map@);
    }
    Some(map)
}

/// A pair that was seen can be left out.
proof fn lemma_walk_skip(
    g: StateGraph,
    roots: Seq<NodePair>,
    pair: NodePair,
    rest: Seq<NodePair>,
    before: PairSet,
    after: PairSet,
    map: Map<usize, usize>,
)
    requires
        walk_wf(g, roots, rest.push(pair), before, map),
        before.has(pair),
        forall|other: NodePair|
            #[trigger] after.has(other) <==> before.has(other) || other == pair,
    ensures
        walk_wf(g, roots, rest, after, map),
{
    reveal(walk_wf);
    let stack = rest.push(pair);
    assert forall|k: int| 0 <= k < rest.len() implies compared(g, roots, #[trigger] rest[k])
        && agrees(g, rest[k]) by {
        assert(stack[k] == rest[k]);
    }
    assert forall|other: NodePair| stack.contains(other) implies after.has(other)
        || #[trigger] rest.contains(other) by {
        let k = choose|k: int| 0 <= k < stack.len() && stack[k] == other;
        if k < rest.len() {
            assert(rest[k] == other);
        }
    }
    assert forall|k: int| 0 <= k < roots.len() implies after.has(#[trigger] roots[k])
        || rest.contains(roots[k]) by {
        assert(before.has(roots[k]) || stack.contains(roots[k]));
    }
    assert forall|other: NodePair, i: int|
        #![trigger after.has(other), edge_pair(g, other, i)]
        after.has(other) && 0 <= i < sorted_edges(g, other.0).len() implies after.has(
        edge_pair(g, other, i),
    ) || rest.contains(edge_pair(g, other, i)) by {
        assert(before.has(other));
        assert(before.has(edge_pair(g, other, i)) || stack.contains(edge_pair(g, other, i)));
    }
    assert forall|other: NodePair, i: int|
        #![trigger after.has(other), sorted_edges(g, other.0)[i]]
        after.has(other) && 0 <= i < sorted_edges(g, other.0).len() && sorted_edges(g, other.0)[i].second
            != sorted_edges(g, other.1)[i].second implies map.dom().contains(
        sorted_edges(g, other.0)[i].second,
    ) by {
        assert(before.has(other));
    }
}

// ---------------------------------------------------------------------------
// What a match at the level of states says

/// The state shapes of roots.
pub open spec fn root_shapes(g: StateGraph, roots: Seq<usize>) -> Seq<ShapeView> {
    roots.map_values(|id: usize| shape_of::<StateNodes<'_>>(g, id))
}

/// Two sets of nodes match exactly where they hold the same state shapes, each
/// as often, in whatever order.
pub proof fn lemma_same_shapes_match(g: StateGraph, old: Seq<usize>, new: Seq<usize>)
    requires
        roots_have_states(g, old),
        roots_have_states(g, new),
    ensures
        states_match(g, old, new) <==> root_shapes(g, old).to_multiset() == root_shapes(
            g,
            new,
        ).to_multiset(),
        states_match(g, old, old),
        states_match(g, old, new) <==> states_match(g, new, old),
{
    let a = state_root_keys(g, old);
    let b = state_root_keys(g, new);
    lemma_keyed_shapes_ascending(a);
    lemma_keyed_shapes_ascending(b);
    assert(keyed_shapes(a) =~= root_shapes(g, old));
    assert(keyed_shapes(b) =~= root_shapes(g, new));
    lemma_shape_total();
    root_shapes(g, old).lemma_sort_by_ensures(shape_le());
    root_shapes(g, new).lemma_sort_by_ensures(shape_le());
    if root_shapes(g, old).to_multiset() == root_shapes(g, new).to_multiset() {
        lemma_shape_ascending_permuted(root_shapes(g, old), root_shapes(g, new));
        root_shapes(g, old).to_multiset_ensures();
        root_shapes(g, new).to_multiset_ensures();
    }
}

/// Stacks that match are alike all the way down: nodes that are compared are in
/// the same state, as many edges lead down from each, and what these lead to is
/// compared in turn.
pub proof fn lemma_matched_stacks_agree(
    gss: GssArena,
    g: StateGraph,
    old_roots: Seq<usize>,
    new_roots: Seq<usize>,
    pair: NodePair,
)
    requires
        gss.wf(),
        g.0 == gss@,
        states_match(g, old_roots, new_roots),
        compared(g, root_pairs(g, old_roots, new_roots), pair),
    ensures
        pair.0 < g.0.nodes.len(),
        pair.1 < g.0.nodes.len(),
        g.0.nodes[pair.0 as int].state == g.0.nodes[pair.1 as int].state,
        edges_from(g.0.edges, pair.0).len() == edges_from(g.0.edges, pair.1).len(),
        forall|i: int|
            0 <= i < sorted_edges(g, pair.0).len() ==> compared(
                g,
                root_pairs(g, old_roots, new_roots),
                #[trigger] edge_pair(g, pair, i),
            ),
{
    let roots = root_pairs(g, old_roots, new_roots);
    let steps = choose|steps: nat| #[trigger] compared_within(g, roots, pair, steps);
    lemma_compared_agrees(gss, g, old_roots, new_roots, pair, steps);
    lemma_state_unfold(g, pair.0);
    lemma_state_unfold(g, pair.1);
    assert(keyed_shapes(sorted_edges(g, pair.0)).len() == keyed_shapes(
        sorted_edges(g, pair.1),
    ).len());
    assert forall|i: int| 0 <= i < sorted_edges(g, pair.0).len() implies compared(
        g,
        roots,
        #[trigger] edge_pair(g, pair, i),
    ) by {
        lemma_compared_step(g, roots, pair, i);
    }
}

proof fn lemma_compared_with_itself(g: StateGraph, roots: Seq<usize>, pair: NodePair, steps: nat)
    requires
        compared_within(g, root_pairs(g, roots, roots), pair, steps),
    ensures
        pair.0 == pair.1,
    decreases steps,
{
    let pairs = root_pairs(g, roots, roots);
    if pairs.contains(pair) {
        let k = choose|k: int| 0 <= k < pairs.len() && pairs[k] == pair;
        assert(pairs[k] == pair);
    } else {
        let (from, i) = choose|from: NodePair, i: int|
            #![trigger edge_pair(g, from, i)]
            compared_within(g, pairs, from, (steps - 1) as nat) && 0 <= i < sorted_edges(
                g,
                from.0,
            ).len() && pair == edge_pair(g, from, i);
        lemma_compared_with_itself(g, roots, from, (steps - 1) as nat);
    }
}

/// Stacks that are compared with themselves show nothing to replace.
pub proof fn lemma_nothing_to_replace(g: StateGraph, roots: Seq<usize>, map: Map<usize, usize>)
    requires
        seam_map(g, root_pairs(g, roots, roots), map),
    ensures
        map == Map::<usize, usize>::empty(),
{
    let pairs = root_pairs(g, roots, roots);
    assert forall|product: usize| !#[trigger] map.dom().contains(product) by {
        if map.dom().contains(product) {
            let (pair, i) = choose|pair: NodePair, i: int|
                #![trigger compared(g, pairs, pair), sorted_edges(g, pair.0)[i]]
                compared(g, pairs, pair) && 0 <= i < sorted_edges(g, pair.0).len()
                    && sorted_edges(g, pair.0)[i].second == product && sorted_edges(
                    g,
                    pair.1,
                )[i].second == map[product];
            let steps = choose|steps: nat| #[trigger] compared_within(g, pairs, pair, steps);
            lemma_compared_with_itself(g, roots, pair, steps);
        }
    }
    assert(map =~= Map::<usize, usize>::empty());
}

} // verus!
