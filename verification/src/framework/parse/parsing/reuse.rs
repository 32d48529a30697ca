//! Taking a frozen run over behind the columns of a replay.

use std::collections::HashMap;
use vstd::prelude::*;

use crate::framework::lex::lexed::TokenOccurrenceId;
use crate::framework::parse::data::frontier::CanonicalFrontierCache;
use crate::framework::parse::data::matching::{
    canonical_match, match_view, root_pairs, seam_map, states_match,
};
use crate::framework::parse::data::product::{ProductData, ProductDataView, ProductId};
use crate::framework::parse::parsing::columns::{
    checkpoint_of, checkpoints_match, frontier_checkpoint_for_column, ColumnView, ParseColumn,
};
use crate::framework::parse::parsing::error::{BuildError, ParseError};
use crate::framework::parse::parsing::growth::{
    built_on, lemma_built_reduced, lemma_built_same, lemma_built_trans,
};
use crate::framework::parse::parsing::reduce::{reduce_failed, unbuilt};
use crate::framework::parse::parsing::reductions::{key_of, KeyView};
use crate::framework::parse::parsing::segment::{
    boundary_place, lemma_last_place, occurrence_of, part_of_segment, ParseSegment, SegmentView,
};
use crate::framework::parse::parsing::session::{token_product_of, SessionView};
use crate::framework::parse::parsing::stack::{
    build_failed, reduced, Language, SessionContext, StackView,
};
use crate::framework::parse::tables::Parser;
use crate::framework::parse::tokens::{boundary_at, ReplayPlan, TokensView};
use crate::framework::parse::types::{
    BoundaryTrace, IncrementalParseStats, ParserBoundaryId,
};

verus! {

// ---------------------------------------------------------------------------
// Whether a run can be taken over

/// Every id stands for itself.
pub open spec fn is_identity(map: Map<usize, usize>) -> bool {
    forall|id: usize| #[trigger] map.dom().contains(id) ==> map[id] == id
}

/// Whether every id stands for itself.
pub fn identity_map(map: &HashMap<usize, usize>) -> (r: bool)
    ensures
        r == is_identity(map@),
{
    broadcast use vstd::std_specs::hash::group_hash_axioms;

    for key in iter: map.keys()
        invariant
            forall|i: int|
                0 <= i < iter.index() ==> map@[*(#[trigger] iter.seq()[i])] == *iter.seq()[i],
    {
        broadcast use vstd::std_specs::hash::group_hash_axioms;

        if let Some(found) = map.get(key) {
            if *found != *key {
                return false;
            }
        }
    }
    true
}

/// Whether a run can be taken over, and from where on.
pub enum ReuseDecision {
    /// It cannot; `matched` tells whether the checkpoints are the same.
    No { matched: bool },
    /// The run stands as it is behind the column.
    Verbatim { old_index: usize },
    /// The run stands behind the column with other products for those that the
    /// map names; `canonical` tells whether the stacks are the same up to the
    /// identity of their nodes.
    Seam { old_index: usize, products: HashMap<usize, usize>, canonical: bool },
}

/// What a decision says.
pub ghost enum DecisionView {
    No { matched: bool },
    Verbatim { old_index: int },
    Seam { old_index: int, products: Map<usize, usize>, canonical: bool },
}

impl View for ReuseDecision {
    type V = DecisionView;

    open spec fn view(&self) -> DecisionView {
        match *self {
            ReuseDecision::No { matched } => DecisionView::No { matched },
            ReuseDecision::Verbatim { old_index } => DecisionView::Verbatim {
                old_index: old_index as int,
            },
            ReuseDecision::Seam { old_index, products, canonical } => DecisionView::Seam {
                old_index: old_index as int,
                products: products@,
                canonical,
            },
        }
    }
}

/// The stacks hold the same states: then the run can stand behind the column
/// with the products that stand in the same places.
pub open spec fn decided_by_states(
    v: StackView,
    old: ColumnView,
    current: ColumnView,
    at: int,
    matched: bool,
    decision: DecisionView,
) -> bool {
    let g = (v.gss, v.products, v.trees);
    if states_match(g, old.active, current.active) {
        decision matches DecisionView::Seam { old_index, products, canonical } && old_index == at
            && !canonical && seam_map(g, root_pairs(g, old.active, current.active), products)
    } else {
        decision == (DecisionView::No { matched })
    }
}

/// What follows from comparing the stacks up to the identity of their nodes.
pub open spec fn decided_by_match(
    v: StackView,
    old: ColumnView,
    current: ColumnView,
    at: int,
    stable: bool,
    found: Option<(Map<usize, usize>, Map<usize, usize>, bool)>,
    decision: DecisionView,
) -> bool {
    match found {
        Some((nodes, products, shared)) => if shared && is_identity(nodes) && is_identity(products)
            && stable {
            decision == (DecisionView::Verbatim { old_index: at })
        } else {
            decision == (DecisionView::Seam { old_index: at, products, canonical: true })
        },
        None => decided_by_states(v, old, current, at, true, decision),
    }
}

/// What is decided at a gap. Where the checkpoints match, the stacks are
/// compared in full; where they do not, the states must still be the same.
pub open spec fn decided(
    v: StackView,
    run: SegmentView,
    column: int,
    boundary: ParserBoundaryId,
    decision: DecisionView,
) -> bool {
    let current = v.session.columns[column];
    let g = (v.gss, v.products);
    match boundary_place(run.columns, boundary) {
        Some(at) => {
            let old = run.columns[at];
            let now = checkpoint_of(current, g);
            let before = run.frontiers[at];
            if checkpoints_match(now, before) {
                exists|found: Option<(Map<usize, usize>, Map<usize, usize>, bool)>|
                    #[trigger] canonical_match(
                        g,
                        (old.base, old.active),
                        (current.base, current.active),
                        found,
                    ) && decided_by_match(v, old, current, at, run.stable, found, decision)
            } else if now.anchor != before.anchor || now.error_derived != before.error_derived {
                decision == (DecisionView::No { matched: false })
            } else {
                decided_by_states(v, old, current, at, false, decision)
            }
        },
        None => decision == (DecisionView::No { matched: false }),
    }
}

impl<V> SessionContext<V> {
    /// Compares the states of two columns.
    fn decide_by_states(
        &self,
        old: &ParseColumn,
        current: &ParseColumn,
        at: usize,
        matched: bool,
    ) -> (r: ReuseDecision)
        requires
            self.arenas.wf(),
        ensures
            decided_by_states(self@, old@, current@, at as int, matched, r@),
    {
        let old_active = old.active_nodes();
        let new_active = current.active_nodes();
        let mut cache = CanonicalFrontierCache::new();
        assert(cache.state_wf((self@.gss, self@.products, self@.trees)));
        match self.arenas.gss.match_state_frontiers(
            old_active.as_slice(),
            new_active.as_slice(),
            &self.arenas.products,
            &self.arenas.trees,
            &mut cache,
        ) {
            Some(products) => ReuseDecision::Seam { old_index: at, products, canonical: false },
            None => ReuseDecision::No { matched },
        }
    }

    /// Whether a run can be taken over behind a column.
    pub fn decide_reuse(
        &self,
        parser: &Parser,
        run: &ParseSegment,
        column: usize,
        boundary: ParserBoundaryId,
    ) -> (r: ReuseDecision)
        requires
            self.wf(*parser),
            run.wf(),
            column < self.state.columns@.len(),
        ensures
            decided(self@, run.view(), column as int, boundary, r@),
            match r@ {
                DecisionView::No { .. } => true,
                DecisionView::Verbatim { old_index } => 0 <= old_index < run.view().columns.len(),
                DecisionView::Seam { old_index, .. } => 0 <= old_index < run.view().columns.len(),
            },
    {
        let ghost v = self@;
        let ghost g = (v.gss, v.products);
        let at: usize = match run.boundary_column(boundary) {
            Some(at) => at,
            None => {
                return ReuseDecision::No { matched: false };
            },
        };
        proof {
            run.lemma_wf();
            lemma_last_place(
                run.view().columns,
                |column: ColumnView| column.boundary == Some(boundary),
            );
        }
        let current = &self.state.columns[column];
        assert(v.session.columns[column as int] == current@);
        let now = frontier_checkpoint_for_column(
            current,
            &self.arenas.gss,
            &self.arenas.products,
        );
        let (old, before) = match (run.column(at), run.frontier(at)) {
            (Some(old), Some(before)) => (old, before),
            _ => {
                return ReuseDecision::No { matched: false };
            },
        };
        if !now.exact_match(before) {
            if now.anchor != before.anchor || now.error_derived != before.error_derived {
                return ReuseDecision::No { matched: false };
            }
            return self.decide_by_states(old, current, at, false);
        }
        let old_base = old.base_active_nodes();
        let old_active = old.active_nodes();
        let new_base = current.base_active_nodes();
        let new_active = current.active_nodes();
        let found = self.arenas.gss.match_canonical_frontiers(
            (old_base.as_slice(), old_active.as_slice()),
            (new_base.as_slice(), new_active.as_slice()),
            &self.arenas.products,
        );
        let ghost said = match_view(found);
        assert(canonical_match(
            g,
            (old@.base, old@.active),
            (current@.base, current@.active),
            said,
        ));
        match found {
            Some((nodes, products, shared)) => {
                if shared && identity_map(&nodes) && identity_map(&products)
                    && run.products_cache_stable() {
                    assert(decided_by_match(
                        v,
                        old@,
                        current@,
                        at as int,
                        run.view().stable,
                        said,
                        DecisionView::Verbatim { old_index: at as int },
                    ));
                    ReuseDecision::Verbatim { old_index: at }
                } else {
                    assert(decided_by_match(
                        v,
                        old@,
                        current@,
                        at as int,
                        run.view().stable,
                        said,
                        DecisionView::Seam {
                            old_index: at as int,
                            products: products@,
                            canonical: true,
                        },
                    ));
                    ReuseDecision::Seam { old_index: at, products, canonical: true }
                }
            },
            None => {
                let r = self.decide_by_states(old, current, at, true);
                assert(decided_by_match(
                    v,
                    old@,
                    current@,
                    at as int,
                    run.view().stable,
                    said,
                    r@,
                ));
                r
            },
        }
    }
}

// ---------------------------------------------------------------------------
// Products that stand in for others

/// The products that stand in for products.
pub open spec fn stand_ins(map: Map<usize, usize>, ids: Seq<ProductId>) -> Seq<ProductId> {
    ids.map_values(|id: ProductId| map[id])
}

/// All ids of a list are named.
pub open spec fn all_named(map: Map<usize, usize>, ids: Seq<ProductId>) -> bool {
    forall|i: int| 0 <= i < ids.len() ==> map.dom().contains(#[trigger] ids[i])
}

/// The token behind an origin.
pub open spec fn origin_boundary(origin: KeyView) -> TokenOccurrenceId {
    match origin.boundary {
        Some(token) => token,
        None => TokenOccurrenceId(u64::MAX),
    }
}

/// What stands in for a product: for a token the product that the token has
/// now, for an error the error itself, and for a reduction the same reduction
/// of what stands in for its children.
pub open spec fn stands_in(
    v: StackView,
    run: SegmentView,
    map: Map<usize, usize>,
    id: ProductId,
) -> bool {
    &&& id < v.products.len()
    &&& match v.products[id as int].data {
        ProductDataView::Token { .. } => map[id] == match occurrence_of(run, id) {
            Some(token) => match token_product_of(v.session, token) {
                Some(product) => product,
                None => id,
            },
            None => id,
        },
        ProductDataView::Error { .. } => map[id] == id,
        ProductDataView::Node { .. } => {
            let origin = v.reductions.origins[id as u64];
            let key = key_of(
                origin.production,
                stand_ins(map, origin.children),
                origin_boundary(origin),
            );
            &&& v.reductions.origins.dom().contains(id as u64)
            &&& all_named(map, origin.children)
            &&& v.reductions.products.dom().contains(key)
            &&& map[id] == v.reductions.products[key]
        },
    }
}

/// What one map says, the other says too.
pub open spec fn within<K, W>(map: Map<K, W>, more: Map<K, W>) -> bool {
    forall|key: K| #[trigger]
        map.dom().contains(key) ==> more.dom().contains(key) && more[key] == map[key]
}

/// Products only came, and what was known of reductions stays.
pub open spec fn only_reduced(v: StackView, w: StackView) -> bool {
    &&& v.products.is_prefix_of(w.products)
    &&& w.session == v.session
    &&& w.gss == v.gss
    &&& within(v.reductions.products, w.reductions.products)
    &&& forall|id: u64|
        id < v.products.len() ==> (#[trigger] w.reductions.origins.dom().contains(id)
            <==> v.reductions.origins.dom().contains(id)) && w.reductions.origins[id]
            == v.reductions.origins[id]
}

proof fn lemma_only_reduced(
    v: StackView,
    w: StackView,
    lhs: u32,
    key: KeyView,
    boundary: TokenOccurrenceId,
    product: ProductId,
)
    requires
        reduced(v, w, lhs, key, boundary, product),
        v.products.len() <= usize::MAX,
    ensures
        only_reduced(v, w),
        w.reductions.products.dom().contains(key),
        w.reductions.products[key] == product,
{
    if !v.reductions.products.dom().contains(key) {
        assert(w.products.take(v.products.len() as int) =~= v.products) by {
            assert forall|i: int| 0 <= i < v.products.len() implies w.products[i]
                == v.products[i] by {
                assert(w.products.drop_last()[i] == v.products[i]);
            }
        }
    } else {
        assert(v.products.take(v.products.len() as int) =~= v.products);
    }
}

proof fn lemma_only_reduced_trans(u: StackView, v: StackView, w: StackView)
    requires
        only_reduced(u, v),
        only_reduced(v, w),
    ensures
        only_reduced(u, w),
{
    assert(w.products.take(u.products.len() as int) =~= u.products);
    assert forall|id: u64| id < u.products.len() implies (
    #[trigger] w.reductions.origins.dom().contains(id) <==> u.reductions.origins.dom().contains(id))
        && w.reductions.origins[id] == u.reductions.origins[id] by {
        assert(v.reductions.origins.dom().contains(id) <==> u.reductions.origins.dom().contains(
            id,
        ));
    }
}

proof fn lemma_stands_in_stays(
    v: StackView,
    w: StackView,
    run: SegmentView,
    map: Map<usize, usize>,
    more: Map<usize, usize>,
    id: ProductId,
)
    requires
        stands_in(v, run, map, id),
        map.dom().contains(id),
        within(map, more),
        only_reduced(v, w),
    ensures
        stands_in(w, run, more, id),
{
    assert(w.products[id as int] == v.products[id as int]);
    assert(more[id] == map[id]);
    if let ProductDataView::Node { .. } = v.products[id as int].data {
        let origin = v.reductions.origins[id as u64];
        assert(w.reductions.origins.dom().contains(id as u64));
        assert forall|i: int| 0 <= i < origin.children.len() implies more.dom().contains(
            #[trigger] origin.children[i],
        ) && more[origin.children[i]] == map[origin.children[i]] by {
            assert(map.dom().contains(origin.children[i]));
        }
        assert(stand_ins(more, origin.children) =~= stand_ins(map, origin.children));
    }
}

/// A product can be bound: it is named already, or it is a token or an error, or
/// it came from a reduction of products before it that can be bound.
pub open spec fn bindable(
    parser: Parser,
    v: StackView,
    named: Set<usize>,
    id: ProductId,
) -> bool
    decreases id,
{
    ||| named.contains(id)
    ||| id < v.products.len() && match v.products[id as int].data {
        ProductDataView::Node { .. } => {
            let origin = v.reductions.origins[id as u64];
            &&& v.reductions.origins.dom().contains(id as u64)
            &&& origin.production < parser.grammar.productions@.len()
            &&& forall|i: int|
                0 <= i < origin.children.len() ==> #[trigger] origin.children[i] < id && bindable(
                    parser,
                    v,
                    named,
                    origin.children[i],
                )
        },
        _ => true,
    }
}

/// All products of a list can be bound.
pub open spec fn all_bindable(
    parser: Parser,
    v: StackView,
    named: Set<usize>,
    ids: Seq<ProductId>,
) -> bool {
    forall|i: int| 0 <= i < ids.len() ==> bindable(parser, v, named, #[trigger] ids[i])
}

/// Reductions and names that were found make nothing bindable that was not.
proof fn lemma_bindable_stays(
    parser: Parser,
    v: StackView,
    w: StackView,
    named: Set<usize>,
    more: Set<usize>,
    id: ProductId,
)
    requires
        only_reduced(v, w),
        id < v.products.len(),
        v.products.len() <= usize::MAX,
        named.subset_of(more),
        forall|other: usize| #[trigger]
            more.contains(other) && !named.contains(other) && other < v.products.len()
                ==> bindable(parser, v, named, other),
    ensures
        bindable(parser, v, named, id) == bindable(parser, w, more, id),
    decreases id,
{
    assert(w.products[id as int] == v.products[id as int]);
    assert(w.reductions.origins.dom().contains(id as u64) <==> v.reductions.origins.dom().contains(
        id as u64,
    ));
    let origin = v.reductions.origins[id as u64];
    assert forall|i: int|
        0 <= i < origin.children.len() && #[trigger] origin.children[i] < id implies bindable(
        parser,
        v,
        named,
        origin.children[i],
    ) == bindable(parser, w, more, origin.children[i]) by {
        lemma_bindable_stays(parser, v, w, named, more, origin.children[i]);
    }
}

/// A product rests on another one: it is that one, or it came from a reduction
/// of products before it, one of which does.
pub open spec fn rests_on(v: StackView, id: ProductId, other: ProductId) -> bool
    decreases id,
{
    ||| id == other
    ||| {
        let origin = v.reductions.origins[id as u64];
        &&& v.reductions.origins.dom().contains(id as u64)
        &&& exists|i: int|
            0 <= i < origin.children.len() && #[trigger] origin.children[i] < id && rests_on(
                v,
                origin.children[i],
                other,
            )
    }
}

/// A reduction cannot be made again over what stands in for its children.
pub open spec fn not_made_again<V, L: Language<V>>(
    parser: Parser,
    language: L,
    context: SessionContext<V>,
    map: Map<usize, usize>,
    id: ProductId,
    error: BuildError,
) -> bool {
    let w = context@;
    let origin = w.reductions.origins[id as u64];
    &&& id < w.products.len()
    &&& w.products[id as int].data is Node
    &&& w.reductions.origins.dom().contains(id as u64)
    &&& origin.production < parser.grammar.productions@.len()
    &&& all_named(map, origin.children)
    &&& !w.reductions.products.dom().contains(
        key_of(origin.production, stand_ins(map, origin.children), origin_boundary(origin)),
    )
    &&& build_failed(
        language,
        context,
        origin.production,
        stand_ins(map, origin.children),
        error,
    )
}

/// A product rests on a reduction that cannot be made again.
pub open spec fn binding_failed<V, L: Language<V>>(
    parser: Parser,
    language: L,
    v: StackView,
    context: SessionContext<V>,
    map: Map<usize, usize>,
    top: ProductId,
    error: BuildError,
) -> bool {
    exists|id: ProductId| #[trigger]
        not_made_again(parser, language, context, map, id, error) && rests_on(v, top, id)
}

/// A run cannot be attached: one of its accepted products rests on a reduction
/// that cannot be made again.
pub open spec fn seam_failed<V, L: Language<V>>(
    parser: Parser,
    language: L,
    v: StackView,
    context: SessionContext<V>,
    run: SegmentView,
    products: Map<usize, usize>,
    accepted: Seq<ProductId>,
) -> bool {
    exists|map: Map<usize, usize>, i: int, error: BuildError|
        0 <= i < accepted.len() && within(products, map) && #[trigger] binding_failed(
            parser,
            language,
            v,
            context,
            map,
            accepted[i],
            error,
        ) && (forall|id: usize| #[trigger]
            map.dom().contains(id) && !products.dom().contains(id) ==> stands_in(
                context@,
                run,
                map,
                id,
            ))
}

/// What a product rests on stays the same where products only came.
proof fn lemma_rests_stays(v: StackView, w: StackView, id: ProductId, other: ProductId)
    requires
        only_reduced(v, w),
        id < v.products.len(),
        v.products.len() <= usize::MAX,
    ensures
        rests_on(v, id, other) == rests_on(w, id, other),
    decreases id,
{
    assert(w.reductions.origins.dom().contains(id as u64) <==> v.reductions.origins.dom().contains(
        id as u64,
    ));
    let origin = v.reductions.origins[id as u64];
    assert forall|i: int| 0 <= i < origin.children.len() && #[trigger] origin.children[i]
        < id implies rests_on(v, origin.children[i], other) == rests_on(
        w,
        origin.children[i],
        other,
    ) by {
        lemma_rests_stays(v, w, origin.children[i], other);
    }
}

impl<V> SessionContext<V> {
    /// Finds what stands in for a product of a run, and notes it. None where a
    /// product came from nowhere; the error where a reduction cannot be made
    /// again.
    pub fn bind_product<L: Language<V>>(
        &mut self,
        parser: &Parser,
        language: &L,
        run: &ParseSegment,
        old_product: ProductId,
        mapping: &mut HashMap<usize, usize>,
    ) -> (r: Result<Option<ProductId>, ParseError>)
        requires
            old(self).wf(*parser),
        ensures
            final(self).wf(*parser),
            final(self).state.recovery == old(self).state.recovery,
            built_on(*language, *old(self), *final(self)),
            only_reduced(old(self)@, final(self)@),
            within(old(mapping)@, final(mapping)@),
            forall|id: usize| #[trigger]
                final(mapping)@.dom().contains(id) && !old(mapping)@.dom().contains(id)
                    ==> id <= old_product && stands_in(
                    final(self)@,
                    run.view(),
                    final(mapping)@,
                    id,
                ) && bindable(*parser, old(self)@, old(mapping)@.dom(), id),
            old(mapping)@.dom().contains(old_product) ==> r is Ok,
            match r {
                Ok(Some(product)) => final(mapping)@.dom().contains(old_product)
                    && final(mapping)@[old_product] == product,
                Ok(None) => !bindable(*parser, old(self)@, old(mapping)@.dom(), old_product),
                Err(error) => error is Build && reduce_failed(
                    *parser,
                    *language,
                    *final(self),
                    error,
                ) && binding_failed(
                    *parser,
                    *language,
                    old(self)@,
                    *final(self),
                    final(mapping)@,
                    old_product,
                    error->Build_0,
                ),
            },
        decreases old_product,
    {
        broadcast use vstd::std_specs::hash::group_hash_axioms;

        let ghost v = self@;
        let ghost map0 = mapping@;
        proof {
            assert(v.products.take(v.products.len() as int) =~= v.products);
            lemma_built_same(*language, *self, *self);
        }
        if let Some(found) = mapping.get(&old_product) {
            return Ok(Some(*found));
        }
        let count: usize = self.arenas.products.len();
        let kind: u8 = match self.arenas.products.get(old_product) {
            Some(product) => match &product.data {
                ProductData::Token { .. } => 0,
                ProductData::Error { .. } => 1,
                ProductData::Node { .. } => 2,
            },
            None => {
                return Ok(None);
            },
        };
        if kind == 0 {
            let target: usize = match run.product_occurrence(old_product) {
                Some(token) => match self.state.token_product(token) {
                    Some(product) => product,
                    None => old_product,
                },
                None => old_product,
            };
            mapping.insert(old_product, target);
            assert(stands_in(self@, run.view(), mapping@, old_product));
            return Ok(Some(target));
        }
        if kind == 1 {
            mapping.insert(old_product, old_product);
            assert(stands_in(self@, run.view(), mapping@, old_product));
            return Ok(Some(old_product));
        }
        let origin = match self.state.reductions.origin(old_product) {
            Some(origin) => origin.copied(),
            None => {
                return Ok(None);
            },
        };
        let ghost came = origin@;
        let production: usize = origin.production as usize;
        if production >= parser.grammar.productions.len() {
            return Ok(None);
        }
        let mut children: Vec<usize> = Vec::new();
        let mut at: usize = 0;
        while at < origin.children.len()
            invariant
                at <= origin.children@.len(),
                self.wf(*parser),
                self.state.recovery == old(self).state.recovery,
                built_on(*language, *old(self), *self),
                v == old(self)@,
                came == origin@,
                old_product < v.products.len(),
                map0 == old(mapping)@,
                within(map0, mapping@),
                !map0.dom().contains(old_product),
                only_reduced(v, self@),
                forall|id: usize| #[trigger]
                    mapping@.dom().contains(id) && !map0.dom().contains(id) ==> id < old_product
                        && stands_in(self@, run.view(), mapping@, id) && bindable(
                        *parser,
                        v,
                        map0.dom(),
                        id,
                    ),
                v.products.len() <= usize::MAX,
                v.products[old_product as int].data is Node,
                came == v.reductions.origins[old_product as u64],
                v.reductions.origins.dom().contains(old_product as u64),
                production == came.production,
                production < parser.grammar.productions@.len(),
                forall|i: int|
                    0 <= i < at ==> #[trigger] came.children[i] < old_product && bindable(
                        *parser,
                        v,
                        map0.dom(),
                        came.children[i],
                    ),
                children@.len() == at,
                forall|i: int|
                    0 <= i < at ==> mapping@.dom().contains(#[trigger] came.children[i])
                        && mapping@[came.children[i]] == children@[i],
            decreases origin.children@.len() - at,
        {
            let child: usize = origin.children[at];
            if child >= old_product {
                assert(!(came.children[at as int] < old_product));
                return Ok(None);
            }
            let ghost before = self@;
            let ghost whole = *self;
            let ghost map1 = mapping@;
            proof {
                lemma_bindable_stays(*parser, v, before, map0.dom(), map1.dom(), child);
                assert forall|id: usize|
                    bindable(*parser, before, map1.dom(), id) && id < v.products.len() implies #[trigger] bindable(
                    *parser,
                    v,
                    map0.dom(),
                    id,
                ) by {
                    lemma_bindable_stays(*parser, v, before, map0.dom(), map1.dom(), id);
                }
            }
            match self.bind_product(parser, language, run, child, mapping) {
                Ok(Some(found)) => {
                    proof {
                        lemma_built_trans(*language, *old(self), whole, *self);
                    }
                    children.push(found);
                },
                Ok(None) => {
                    proof {
                        lemma_built_trans(*language, *old(self), whole, *self);
                        lemma_only_reduced_trans(v, before, self@);
                        assert forall|id: usize| #[trigger]
                            mapping@.dom().contains(id) && !map0.dom().contains(id) implies id < old_product && stands_in(
                            self@,
                            run.view(),
                            mapping@,
                            id,
                        ) && bindable(*parser, v, map0.dom(), id) by {
                            if map1.dom().contains(id) {
                                lemma_stands_in_stays(
                                    before,
                                    self@,
                                    run.view(),
                                    map1,
                                    mapping@,
                                    id,
                                );
                            }
                        }
                    }
                    assert(!bindable(*parser, v, map0.dom(), came.children[at as int]));
                    return Ok(None);
                },
                Err(error) => {
                    proof {
                        lemma_built_trans(*language, *old(self), whole, *self);
                        let id = choose|id: ProductId| #[trigger]
                            not_made_again(
                                *parser,
                                *language,
                                *self,
                                mapping@,
                                id,
                                error->Build_0,
                            ) && rests_on(before, child, id);
                        lemma_rests_stays(v, before, child, id);
                        assert(came.children[at as int] == child);
                        assert(rests_on(v, old_product, id));
                        assert(binding_failed(
                            *parser,
                            *language,
                            v,
                            *self,
                            mapping@,
                            old_product,
                            error->Build_0,
                        ));
                        lemma_only_reduced_trans(v, before, self@);
                        assert forall|id: usize| #[trigger]
                            mapping@.dom().contains(id) && !map0.dom().contains(id) implies id < old_product && stands_in(
                            self@,
                            run.view(),
                            mapping@,
                            id,
                        ) && bindable(*parser, v, map0.dom(), id) by {
                            if map1.dom().contains(id) {
                                lemma_stands_in_stays(
                                    before,
                                    self@,
                                    run.view(),
                                    map1,
                                    mapping@,
                                    id,
                                );
                            }
                        }
                    }
                    return Err(error);
                },
            }
            proof {
                lemma_only_reduced_trans(v, before, self@);
                assert forall|id: usize| #[trigger]
                    mapping@.dom().contains(id) && !map0.dom().contains(id) implies id < old_product && stands_in(
                    self@,
                    run.view(),
                    mapping@,
                    id,
                ) && bindable(*parser, v, map0.dom(), id) by {
                    if map1.dom().contains(id) {
                        lemma_stands_in_stays(before, self@, run.view(), map1, mapping@, id);
                    }
                }
            }
            at += 1;
        }
        let boundary = match origin.boundary {
            Some(token) => token,
            None => TokenOccurrenceId(u64::MAX),
        };
        let ghost before = self@;
        let ghost whole = *self;
        let ghost map1 = mapping@;
        proof {
            assert(stand_ins(map1, came.children) =~= children@);
            assert(before.products[old_product as int] == v.products[old_product as int]);
            assert(before.reductions.origins.dom().contains(old_product as u64));
        }
        let count: usize = self.arenas.products.len();
        let product: usize = match self.reduce_cached(
            parser,
            language,
            production,
            &children,
            boundary,
        ) {
            Ok(product) => product,
            Err(error) => {
                proof {
                    assert(unbuilt(*parser, *language, *self, error->Build_0));
                    assert(not_made_again(
                        *parser,
                        *language,
                        *self,
                        mapping@,
                        old_product,
                        error->Build_0,
                    ));
                    assert(rests_on(v, old_product, old_product));
                }
                return Err(error);
            },
        };
        let ghost key = key_of(production as u32, children@, boundary);
        proof {
            lemma_only_reduced(
                before,
                self@,
                parser.grammar.productions@[production as int].lhs,
                key,
                boundary,
                product,
            );
            lemma_only_reduced_trans(v, before, self@);
            lemma_built_reduced(
                *language,
                whole,
                *self,
                parser.grammar.productions@[production as int].lhs,
                key,
                boundary,
                product,
            );
            lemma_built_trans(*language, *old(self), whole, *self);
        }
        mapping.insert(old_product, product);
        proof {
            assert(!map1.dom().contains(old_product));
            assert forall|id: usize| #[trigger]
                mapping@.dom().contains(id) && !map0.dom().contains(id) implies id <= old_product && stands_in(
                self@,
                run.view(),
                mapping@,
                id,
            ) by {
                if id == old_product {
                    assert(self@.products[id as int] == v.products[id as int]);
                    assert(self@.reductions.origins.dom().contains(id as u64));
                    assert(self@.reductions.origins[id as u64] == came);
                    assert(stand_ins(mapping@, came.children) =~= children@) by {
                        assert forall|i: int| 0 <= i < came.children.len() implies
                            mapping@[came.children[i]] == children@[i] by {
                            assert(map1.dom().contains(came.children[i]));
                        }
                    }
                } else {
                    lemma_stands_in_stays(before, self@, run.view(), map1, mapping@, id);
                }
            }
        }
        Ok(Some(product))
    }
}

/// The work with a run behind the columns.
pub open spec fn with_run(v: StackView, run: SegmentView) -> StackView {
    StackView {
        session: SessionView {
            suffix: if run.columns.len() == 0 {
                None
            } else {
                Some(run)
            },
            ..v.session
        },
        ..v
    }
}

/// The rest of a run behind a column.
pub open spec fn rest_of(run: SegmentView, at: int) -> SegmentView {
    part_of_segment(run, at + 1, run.columns.len() as int)
}

/// A run was attached with products that stand in for its own.
pub open spec fn seam_attached(
    v: StackView,
    mid: StackView,
    w: StackView,
    run: SegmentView,
    at: int,
    products: Map<usize, usize>,
    map: Map<usize, usize>,
) -> bool {
    let rest = rest_of(run, at);
    &&& only_reduced(v, mid)
    &&& within(products, map)
    &&& forall|id: usize| #[trigger]
        map.dom().contains(id) && !products.dom().contains(id) ==> stands_in(mid, run, map, id)
    &&& all_named(map, rest.raw_accepted)
    &&& w == with_run(
        mid,
        SegmentView {
            accepted: stand_ins(map, rest.raw_accepted),
            seams: seq![map],
            ..rest
        },
    )
}

/// What is counted of one comparison.
pub open spec fn compared_stats(
    stats: IncrementalParseStats,
    trace: BoundaryTrace,
    matched: bool,
    taken: bool,
    converged: Option<(usize, usize)>,
) -> IncrementalParseStats {
    IncrementalParseStats {
        convergence_checks: (stats.convergence_checks + 1) as usize,
        boundary_trace: Some(trace),
        checkpoint_matches: if matched {
            (stats.checkpoint_matches + 1) as usize
        } else {
            stats.checkpoint_matches
        },
        frontier_matches: if taken {
            (stats.frontier_matches + 1) as usize
        } else {
            stats.frontier_matches
        },
        reconverged_new_boundary: match converged {
            Some((new, _)) => Some(new),
            None => stats.reconverged_new_boundary,
        },
        reconverged_old_boundary: match converged {
            Some((_, old)) => Some(old),
            None => stats.reconverged_old_boundary,
        },
        ..stats
    }
}

/// What is traced of one comparison.
pub open spec fn traced(
    v: StackView,
    run: SegmentView,
    tokens: TokensView,
    column: int,
    rank: int,
) -> BoundaryTrace {
    let old = match boundary_place(run.columns, boundary_at(tokens, rank)) {
        Some(at) => match run.columns[at].token {
            Some(token) => Some(token.0),
            None => None,
        },
        None => None,
    };
    BoundaryTrace {
        current_lookahead_occurrence: if rank < tokens.tokens.len() {
            Some(tokens.tokens[rank].column.0)
        } else {
            None
        },
        current_column_anchor: match v.session.columns[column].token {
            Some(token) => Some(token.0),
            None => None,
        },
        selected_old_occurrence: old,
        selected_old_column_anchor: old,
    }
}

/// What a comparison led to, by what was decided.
pub open spec fn reuse_outcome<V, L: Language<V>>(
    parser: Parser,
    language: L,
    v: StackView,
    context: SessionContext<V>,
    run: SegmentView,
    base: int,
    column: int,
    stats: IncrementalParseStats,
    after: IncrementalParseStats,
    trace: BoundaryTrace,
    decision: DecisionView,
    outcome: Option<bool>,
) -> bool {
    let w = context@;
    match decision {
        DecisionView::No { matched } => {
            &&& outcome == Some(false)
            &&& w == v
            &&& after == compared_stats(stats, trace, matched, false, None)
        },
        DecisionView::Verbatim { old_index } => {
            &&& outcome == Some(true)
            &&& w == with_run(v, rest_of(run, old_index))
            &&& after == compared_stats(
                stats,
                trace,
                true,
                true,
                Some((column as usize, (base + old_index) as usize)),
            )
        },
        DecisionView::Seam { old_index, products, canonical } => match outcome {
            Some(true) => {
                &&& exists|mid: StackView, map: Map<usize, usize>| #[trigger]
                    seam_attached(v, mid, w, run, old_index, products, map)
                &&& after == compared_stats(
                    stats,
                    trace,
                    true,
                    true,
                    Some((column as usize, (base + old_index) as usize)),
                )
            },
            Some(false) => {
                let accepted = rest_of(run, old_index).raw_accepted;
                &&& only_reduced(v, w)
                &&& {
                    ||| !all_bindable(parser, v, products.dom(), accepted)
                    ||| !canonical && seam_failed(
                        parser,
                        language,
                        v,
                        context,
                        run,
                        products,
                        accepted,
                    )
                }
                &&& after == compared_stats(stats, trace, true, true, None)
            },
            None => {
                let accepted = rest_of(run, old_index).raw_accepted;
                &&& canonical
                &&& only_reduced(v, w)
                &&& {
                    ||| !all_bindable(parser, v, products.dom(), accepted)
                    ||| seam_failed(parser, language, v, context, run, products, accepted)
                }
            },
        },
    }
}

/// How a comparison ended: whether the run was taken over, or none where it
/// failed.
pub open spec fn outcome_of(r: Result<bool, ParseError>) -> Option<bool> {
    match r {
        Ok(taken) => Some(taken),
        Err(_) => None,
    }
}

impl<V> SessionContext<V> {
    /// Finds what stands in for the accepted products of a run.
    fn bind_accepted<L: Language<V>>(
        &mut self,
        parser: &Parser,
        language: &L,
        run: &ParseSegment,
        accepted: &Vec<ProductId>,
        mapping: &mut HashMap<usize, usize>,
    ) -> (r: Result<Option<Vec<ProductId>>, ParseError>)
        requires
            old(self).wf(*parser),
        ensures
            final(self).wf(*parser),
            final(self).state.recovery == old(self).state.recovery,
            built_on(*language, *old(self), *final(self)),
            only_reduced(old(self)@, final(self)@),
            within(old(mapping)@, final(mapping)@),
            forall|id: usize| #[trigger]
                final(mapping)@.dom().contains(id) && !old(mapping)@.dom().contains(id)
                    ==> stands_in(final(self)@, run.view(), final(mapping)@, id),
            match r {
                Ok(Some(list)) => all_named(final(mapping)@, accepted@) && list@ == stand_ins(
                    final(mapping)@,
                    accepted@,
                ),
                Ok(None) => !all_bindable(*parser, old(self)@, old(mapping)@.dom(), accepted@),
                Err(error) => error is Build && reduce_failed(
                    *parser,
                    *language,
                    *final(self),
                    error,
                ) && {
                    ||| !all_bindable(*parser, old(self)@, old(mapping)@.dom(), accepted@)
                    ||| exists|i: int|
                        0 <= i < accepted@.len() && binding_failed(
                            *parser,
                            *language,
                            old(self)@,
                            *final(self),
                            final(mapping)@,
                            #[trigger] accepted@[i],
                            error->Build_0,
                        )
                },
            },
    {
        let ghost v = self@;
        let ghost map0 = mapping@;
        let count: usize = self.arenas.products.len();
        let mut out: Vec<usize> = Vec::new();
        let mut at: usize = 0;
        proof {
            assert(v.products.take(v.products.len() as int) =~= v.products);
            lemma_built_same(*language, *self, *self);
        }
        while at < accepted.len()
            invariant
                at <= accepted@.len(),
                self.wf(*parser),
                self.state.recovery == old(self).state.recovery,
                built_on(*language, *old(self), *self),
                v == old(self)@,
                map0 == old(mapping)@,
                within(map0, mapping@),
                only_reduced(v, self@),
                forall|id: usize| #[trigger]
                    mapping@.dom().contains(id) && !map0.dom().contains(id) ==> stands_in(
                        self@,
                        run.view(),
                        mapping@,
                        id,
                    ),
                v.products.len() <= usize::MAX,
                forall|id: usize| #[trigger]
                    mapping@.dom().contains(id) && !map0.dom().contains(id) && id < v.products.len()
                        ==> bindable(*parser, v, map0.dom(), id),
                out@.len() == at,
                forall|i: int|
                    0 <= i < at ==> mapping@.dom().contains(#[trigger] accepted@[i])
                        && mapping@[accepted@[i]] == out@[i],
            decreases accepted@.len() - at,
        {
            let ghost before = self@;
            let ghost map1 = mapping@;
            let ghost whole = *self;
            let result = self.bind_product(parser, language, run, accepted[at], mapping);
            proof {
                assert forall|id: usize| #[trigger]
                    mapping@.dom().contains(id) && !map0.dom().contains(id) && id < v.products.len() implies bindable(
                    *parser,
                    v,
                    map0.dom(),
                    id,
                ) by {
                    if !map1.dom().contains(id) {
                        lemma_bindable_stays(*parser, v, before, map0.dom(), map1.dom(), id);
                    }
                }
                if accepted@[at as int] < v.products.len() {
                    lemma_bindable_stays(
                        *parser,
                        v,
                        before,
                        map0.dom(),
                        map1.dom(),
                        accepted@[at as int],
                    );
                }
                lemma_only_reduced_trans(v, before, self@);
                lemma_built_trans(*language, *old(self), whole, *self);
                if result is Err {
                    let error = result->Err_0;
                    let top = accepted@[at as int];
                    let id = choose|id: ProductId| #[trigger]
                        not_made_again(
                            *parser,
                            *language,
                            *self,
                            mapping@,
                            id,
                            error->Build_0,
                        ) && rests_on(before, top, id);
                    if top < v.products.len() {
                        lemma_rests_stays(v, before, top, id);
                        assert(binding_failed(
                            *parser,
                            *language,
                            v,
                            *self,
                            mapping@,
                            top,
                            error->Build_0,
                        ));
                    } else {
                        assert(!map0.dom().contains(top)) by {
                            if map0.dom().contains(top) {
                                assert(map1.dom().contains(top));
                            }
                        }
                        assert(!bindable(*parser, v, map0.dom(), accepted@[at as int]));
                    }
                }
                assert forall|id: usize| #[trigger]
                    mapping@.dom().contains(id) && !map0.dom().contains(id) implies stands_in(
                    self@,
                    run.view(),
                    mapping@,
                    id,
                ) by {
                    if map1.dom().contains(id) {
                        lemma_stands_in_stays(before, self@, run.view(), map1, mapping@, id);
                    }
                }
            }
            match result {
                Ok(Some(found)) => {
                    out.push(found);
                },
                Ok(None) => {
                    return Ok(None);
                },
                Err(error) => {
                    return Err(error);
                },
            }
            at += 1;
        }
        assert(out@ =~= stand_ins(mapping@, accepted@));
        Ok(Some(out))
    }

    /// Takes the rest of a run over where the replay has come to stacks from
    /// which the run would be parsed again. Before the plan's end of the edit
    /// nothing is compared.
    pub fn maybe_reuse_suffix<L: Language<V>>(
        &mut self,
        parser: &Parser,
        language: &L,
        plan: &ReplayPlan<'_>,
        run: &ParseSegment,
        column_base: usize,
        column: usize,
        rank: usize,
        stats: &mut IncrementalParseStats,
    ) -> (r: Result<bool, ParseError>)
        requires
            old(self).wf(*parser),
            old(self).state.retained_suffix is None,
            column < old(self).state.columns@.len(),
            run.wf(),
            column_base + run.view().columns.len() <= usize::MAX,
            old(stats).convergence_checks < usize::MAX,
            old(stats).checkpoint_matches < usize::MAX,
            old(stats).frontier_matches < usize::MAX,
        ensures
            final(self).wf(*parser),
            final(self).state.recovery == old(self).state.recovery,
            built_on(*language, *old(self), *final(self)),
            r is Err ==> r->Err_0 is Build && reduce_failed(
                *parser,
                *language,
                *final(self),
                r->Err_0,
            ),
            rank < plan.new_reuse_start ==> r == Ok::<bool, ParseError>(false) && *final(self)
                == *old(self) && *final(stats) == *old(stats),
            rank >= plan.new_reuse_start ==> exists|decision: DecisionView| #[trigger]
                decided(
                    old(self)@,
                    run.view(),
                    column as int,
                    boundary_at(plan.new@, rank as int),
                    decision,
                ) && reuse_outcome(
                    *parser,
                    *language,
                    old(self)@,
                    *final(self),
                    run.view(),
                    column_base as int,
                    column as int,
                    *old(stats),
                    *final(stats),
                    traced(old(self)@, run.view(), plan.new@, column as int, rank as int),
                    decision,
                    outcome_of(r),
                ),
    {
        let ghost v = self@;
        let ghost seen = run.view();
        proof {
            lemma_built_same(*language, *self, *self);
        }
        if rank < plan.new_reuse_start {
            return Ok(false);
        }
        let boundary = ParserBoundaryId::Source(plan.new.boundary_at_rank(rank));
        let current_lookahead: Option<u64> = if rank < plan.new.semantic_len() {
            match plan.new_unit(rank) {
                Some(token) => Some(token.column.0),
                None => None,
            }
        } else {
            None
        };
        let old_token: Option<u64> = match run.boundary_column(boundary) {
            Some(at) => {
                proof {
                    lemma_last_place(
                        seen.columns,
                        |column: ColumnView| column.boundary == Some(boundary),
                    );
                }
                match run.column(at) {
                    Some(found) => match found.token {
                        Some(token) => Some(token.0),
                        None => None,
                    },
                    None => None,
                }
            },
            None => None,
        };
        assert(v.session.columns[column as int] == self.state.columns@[column as int]@);
        let anchor: Option<u64> = match self.state.columns[column].token {
            Some(token) => Some(token.0),
            None => None,
        };
        let trace = BoundaryTrace {
            current_lookahead_occurrence: current_lookahead,
            current_column_anchor: anchor,
            selected_old_occurrence: old_token,
            selected_old_column_anchor: old_token,
        };
        assert(trace == traced(v, seen, plan.new@, column as int, rank as int));
        stats.convergence_checks = stats.convergence_checks + 1;
        stats.boundary_trace = Some(trace);
        let decision = self.decide_reuse(parser, run, column, boundary);
        let ghost said = decision@;
        match decision {
            ReuseDecision::No { matched } => {
                if matched {
                    stats.checkpoint_matches = stats.checkpoint_matches + 1;
                }
                Ok(false)
            },
            ReuseDecision::Verbatim { old_index } => {
                stats.checkpoint_matches = stats.checkpoint_matches + 1;
                stats.frontier_matches = stats.frontier_matches + 1;
                stats.reconverged_new_boundary = Some(column);
                stats.reconverged_old_boundary = Some(column_base + old_index);
                let rest = run.slice(old_index + 1, run.len());
                self.state.append_reused_segment(rest);
                proof {
                    assert(self@ =~= with_run(v, rest_of(seen, old_index as int)));
                    lemma_built_same(*language, *old(self), *self);
                }
                Ok(true)
            },
            ReuseDecision::Seam { old_index, products, canonical } => {
                stats.checkpoint_matches = stats.checkpoint_matches + 1;
                stats.frontier_matches = stats.frontier_matches + 1;
                let rest = run.slice(old_index + 1, run.len());
                let ghost given = products@;
                let mut mapping = products;
                let accepted = match self.bind_accepted(
                    parser,
                    language,
                    run,
                    rest.raw_accepted(),
                    &mut mapping,
                ) {
                    Ok(Some(accepted)) => accepted,
                    Ok(None) => {
                        return Ok(false);
                    },
                    Err(error) => {
                        proof {
                            let ids = rest_of(seen, old_index as int).raw_accepted;
                            if all_bindable(*parser, v, given.dom(), ids) {
                                let i = choose|i: int|
                                    0 <= i < ids.len() && binding_failed(
                                        *parser,
                                        *language,
                                        v,
                                        *self,
                                        mapping@,
                                        #[trigger] ids[i],
                                        error->Build_0,
                                    );
                                assert(seam_failed(
                                    *parser,
                                    *language,
                                    v,
                                    *self,
                                    seen,
                                    given,
                                    ids,
                                ));
                            }
                        }
                        if !canonical {
                            return Ok(false);
                        }
                        return Err(error);
                    },
                };
                let ghost mid = self@;
                let ghost whole = *self;
                let ghost map = mapping@;
                let attached = rest.attach_seam(mapping, accepted);
                stats.reconverged_new_boundary = Some(column);
                stats.reconverged_old_boundary = Some(column_base + old_index);
                proof {
                    assert(attached.view() =~= (SegmentView {
                        accepted: stand_ins(map, rest.view().raw_accepted),
                        seams: seq![map],
                        ..rest.view()
                    }));
                }
                self.state.append_reused_segment(attached);
                proof {
                    assert(self@ =~= with_run(mid, attached.view()));
                    lemma_built_same(*language, whole, *self);
                    lemma_built_trans(*language, *old(self), whole, *self);
                    assert(seam_attached(v, mid, self@, seen, old_index as int, given, map));
                }
                Ok(true)
            },
        }
    }
}

} // verus!
