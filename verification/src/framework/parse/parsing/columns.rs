//! Parser columns: the stacks at one gap between tokens, and how two of them
//! are compared.

use vstd::prelude::*;

use crate::collections::{
    node_items, node_set_at, node_set_clone, node_set_insert, node_set_len, node_set_new,
};
use crate::framework::lex::lexed::TokenOccurrenceId;
use crate::framework::parse::data::frontier::{
    frontier_hash, is_frontier, root_keys, CanonicalFrontierKey, CanonicalNodes,
};
use crate::framework::parse::data::green::ParseErrorInfo;
use crate::framework::parse::data::gss::{GssArena, GssNodeId, GssView};
use crate::framework::parse::data::product::{copy_ids, ProductArena, ProductId, ProductView};
use crate::framework::parse::types::ParserBoundaryId;
use crate::shape::{keyed_ascending, keyed_shapes, ShapeView};
use crate::shape_graph::has_shape;

verus! {

// ---------------------------------------------------------------------------
// Columns

/// The stacks at one gap, and the products that were reduced there.
pub struct ParseColumn {
    pub token: Option<TokenOccurrenceId>,
    /// The nodes with which the column began.
    pub base_active: indexmap::IndexSet<usize>,
    /// The nodes after reductions.
    pub active: indexmap::IndexSet<usize>,
    pub accepted: Vec<ProductId>,
    pub products: Vec<ProductId>,
    pub diagnostics: Vec<ParseErrorInfo>,
    pub error_derived: bool,
    pub boundary: Option<ParserBoundaryId>,
}

/// What a column holds.
#[verifier::ext_equal]
pub ghost struct ColumnView {
    pub token: Option<TokenOccurrenceId>,
    pub base: Seq<GssNodeId>,
    pub active: Seq<GssNodeId>,
    pub accepted: Seq<ProductId>,
    pub products: Seq<ProductId>,
    pub diagnostics: Seq<ParseErrorInfo>,
    pub error_derived: bool,
    pub boundary: Option<ParserBoundaryId>,
}

impl View for ParseColumn {
    type V = ColumnView;

    open spec fn view(&self) -> ColumnView {
        ColumnView {
            token: self.token,
            base: node_items(self.base_active),
            active: node_items(self.active),
            accepted: self.accepted@,
            products: self.products@,
            diagnostics: self.diagnostics@,
            error_derived: self.error_derived,
            boundary: self.boundary,
        }
    }
}

/// What columns hold.
pub open spec fn column_views(columns: Seq<ParseColumn>) -> Seq<ColumnView> {
    columns.map_values(|column: ParseColumn| column@)
}

/// A list with an id added, unless it is there.
pub open spec fn with_id(list: Seq<usize>, id: usize) -> Seq<usize> {
    if list.contains(id) {
        list
    } else {
        list.push(id)
    }
}

/// A column before anything was reduced in it.
pub open spec fn fresh_column(token: Option<TokenOccurrenceId>, active: Seq<GssNodeId>) -> ColumnView {
    ColumnView {
        token,
        base: active,
        active,
        accepted: Seq::empty(),
        products: Seq::empty(),
        diagnostics: Seq::empty(),
        error_derived: false,
        boundary: None,
    }
}

/// A column as it was before anything was reduced in it.
pub open spec fn reset_column(column: ColumnView) -> ColumnView {
    ColumnView { boundary: column.boundary, ..fresh_column(column.token, column.base) }
}

/// The numbers of a set, as a list.
pub(crate) fn set_nodes(set: &indexmap::IndexSet<usize>) -> (r: Vec<usize>)
    ensures
        r@ == node_items(*set),
{
    let total: usize = node_set_len(set);
    let mut out: Vec<usize> = Vec::new();
    let mut at: usize = 0;
    while at < total
        invariant
            at <= total,
            total == node_items(*set).len(),
            out@ == node_items(*set).take(at as int),
        decreases total - at,
    {
        match node_set_at(set, at) {
            Some(node) => {
                out.push(node);
            },
            None => {},
        }
        assert(out@ =~= node_items(*set).take(at as int + 1));
        at += 1;
    }
    assert(out@ =~= node_items(*set));
    out
}

/// A set of numbers, in the order of a list.
pub(crate) fn node_set_of(list: &Vec<usize>) -> (r: indexmap::IndexSet<usize>)
    requires
        list@.no_duplicates(),
    ensures
        node_items(r) == list@,
{
    let mut out = node_set_new();
    let mut at: usize = 0;
    assert(list@.take(0) =~= node_items(out));
    while at < list.len()
        invariant
            at <= list@.len(),
            list@.no_duplicates(),
            node_items(out) == list@.take(at as int),
        decreases list@.len() - at,
    {
        let fresh = node_set_insert(&mut out, list[at]);
        proof {
            let known = list@.take(at as int);
            if known.contains(list@[at as int]) {
                let k = choose|k: int| 0 <= k < known.len() && known[k] == list@[at as int];
                assert(list@[k] == list@[at as int]);
            }
            assert(node_items(out) =~= list@.take(at as int + 1));
        }
        at += 1;
    }
    assert(list@.take(at as int) =~= list@);
    out
}

/// A copy of a list of diagnostics.
pub(crate) fn copy_infos(list: &Vec<ParseErrorInfo>) -> (r: Vec<ParseErrorInfo>)
    ensures
        r@ == list@,
{
    let mut out: Vec<ParseErrorInfo> = Vec::new();
    let mut at: usize = 0;
    while at < list.len()
        invariant
            at <= list@.len(),
            out@ == list@.take(at as int),
        decreases list@.len() - at,
    {
        out.push(list[at]);
        assert(out@ =~= list@.take(at as int + 1));
        at += 1;
    }
    assert(out@ =~= list@);
    out
}

/// Whether a list holds an id.
pub(crate) fn has_id(list: &Vec<usize>, id: usize) -> (r: bool)
    ensures
        r == list@.contains(id),
{
    let mut at: usize = 0;
    while at < list.len()
        invariant
            at <= list@.len(),
            forall|i: int| 0 <= i < at ==> #[trigger] list@[i] != id,
        decreases list@.len() - at,
    {
        if list[at] == id {
            assert(list@[at as int] == id);
            return true;
        }
        at += 1;
    }
    false
}

impl ParseColumn {
    /// A column that begins with the given nodes.
    pub(crate) fn new(token: Option<TokenOccurrenceId>, active: indexmap::IndexSet<usize>) -> (r:
        Self)
        ensures
            r@ == fresh_column(token, node_items(active)),
    {
        ParseColumn {
            token,
            base_active: node_set_clone(&active),
            active,
            accepted: Vec::new(),
            products: Vec::new(),
            diagnostics: Vec::new(),
            error_derived: false,
            boundary: None,
        }
    }

    /// A column that begins with the given nodes.
    pub fn of_nodes(token: Option<TokenOccurrenceId>, active: &Vec<GssNodeId>) -> (r: Self)
        requires
            active@.no_duplicates(),
        ensures
            r@ == fresh_column(token, active@),
    {
        ParseColumn::new(token, node_set_of(active))
    }

    /// A copy of the column.
    pub fn copied(&self) -> (r: Self)
        ensures
            r@ == self@,
    {
        ParseColumn {
            token: self.token,
            base_active: node_set_clone(&self.base_active),
            active: node_set_clone(&self.active),
            accepted: copy_ids(&self.accepted),
            products: copy_ids(&self.products),
            diagnostics: copy_infos(&self.diagnostics),
            error_derived: self.error_derived,
            boundary: self.boundary,
        }
    }

    /// The nodes after reductions.
    pub fn active_nodes(&self) -> (r: Vec<GssNodeId>)
        ensures
            r@ == self@.active,
    {
        set_nodes(&self.active)
    }

    /// The nodes with which the column began.
    pub fn base_active_nodes(&self) -> (r: Vec<GssNodeId>)
        ensures
            r@ == self@.base,
    {
        set_nodes(&self.base_active)
    }

    /// The products that were accepted here.
    pub fn accepted(&self) -> (r: &Vec<ProductId>)
        ensures
            r@ == self@.accepted,
    {
        &self.accepted
    }

    /// Names the gap of the column.
    pub fn set_boundary(&mut self, boundary: Option<ParserBoundaryId>)
        ensures
            final(self)@ == (ColumnView { boundary, ..old(self)@ }),
    {
        self.boundary = boundary;
    }

    /// The gap of the column.
    pub fn boundary(&self) -> (r: Option<ParserBoundaryId>)
        ensures
            r == self@.boundary,
    {
        self.boundary
    }

    /// Adds a product, unless the column has it.
    pub fn push_product(&mut self, product: ProductId) -> (r: bool)
        ensures
            r == !old(self)@.products.contains(product),
            final(self)@ == (ColumnView {
                products: with_id(old(self)@.products, product),
                ..old(self)@
            }),
    {
        if has_id(&self.products, product) {
            return false;
        }
        self.products.push(product);
        true
    }

    /// Accepts a product, unless it was accepted.
    pub fn push_accepted(&mut self, product: ProductId) -> (r: bool)
        ensures
            r == !old(self)@.accepted.contains(product),
            final(self)@ == (ColumnView {
                accepted: with_id(old(self)@.accepted, product),
                ..old(self)@
            }),
    {
        if has_id(&self.accepted, product) {
            return false;
        }
        self.accepted.push(product);
        true
    }

    /// Adds a node, unless it is active.
    pub fn insert_active(&mut self, node: GssNodeId) -> (r: bool)
        ensures
            r == !old(self)@.active.contains(node),
            final(self)@ == (ColumnView { active: with_id(old(self)@.active, node), ..old(self)@ }),
    {
        node_set_insert(&mut self.active, node)
    }

    /// Notes that a repair led here; returns whether that is new.
    pub fn set_error_derived(&mut self) -> (r: bool)
        ensures
            r == !old(self)@.error_derived,
            final(self)@ == (ColumnView { error_derived: true, ..old(self)@ }),
    {
        if self.error_derived {
            return false;
        }
        self.error_derived = true;
        true
    }

    /// Takes back what was reduced in the column.
    pub fn reset_for_replay(&mut self)
        ensures
            final(self)@ == reset_column(old(self)@),
    {
        self.active = node_set_clone(&self.base_active);
        self.accepted = Vec::new();
        self.products = Vec::new();
        self.diagnostics = Vec::new();
        self.error_derived = false;
    }
}

// ---------------------------------------------------------------------------
// Checkpoints

/// What is kept of the stacks at a gap, to compare them with later ones.
pub struct FrontierCheckpoint {
    /// The gap.
    pub anchor: Option<ParserBoundaryId>,
    /// The stacks up to the identity of their nodes; none where a stack runs in
    /// a circle.
    pub key: Option<CanonicalFrontierKey>,
    pub fingerprint: u64,
    pub error_derived: bool,
}

/// What a checkpoint says.
pub ghost struct CheckpointView {
    pub anchor: Option<ParserBoundaryId>,
    pub key: Option<(Seq<ShapeView>, Seq<ShapeView>)>,
    pub fingerprint: u64,
    pub error_derived: bool,
}

impl View for FrontierCheckpoint {
    type V = CheckpointView;

    open spec fn view(&self) -> CheckpointView {
        CheckpointView {
            anchor: self.anchor,
            key: match self.key {
                Some(key) => Some(key.view()),
                None => None,
            },
            fingerprint: self.fingerprint,
            error_derived: self.error_derived,
        }
    }
}

/// Two checkpoints are known to be the same. Without a key nothing is known.
pub open spec fn checkpoints_match(a: CheckpointView, b: CheckpointView) -> bool {
    a.key is Some && a == b
}

impl FrontierCheckpoint {
    /// The key is well formed.
    pub open spec fn wf(self) -> bool {
        self.key is Some ==> self.key->Some_0.wf()
    }

    /// Whether both are known to be the same. The fingerprints only serve to
    /// tell unequal ones apart early.
    pub fn exact_match(&self, other: &Self) -> (r: bool)
        requires
            self.wf(),
            other.wf(),
        ensures
            r == checkpoints_match(self@, other@),
    {
        match (&self.key, &other.key) {
            (Some(left), Some(right)) => {
                self.fingerprint == other.fingerprint && self.anchor == other.anchor
                    && self.error_derived == other.error_derived && left.same(right)
            },
            _ => false,
        }
    }

    /// A copy of the checkpoint.
    pub fn copied(&self) -> (r: Self)
        requires
            self.wf(),
        ensures
            r.wf(),
            r@ == self@,
    {
        FrontierCheckpoint {
            anchor: self.anchor,
            key: match &self.key {
                Some(key) => Some(key.copied()),
                None => None,
            },
            fingerprint: self.fingerprint,
            error_derived: self.error_derived,
        }
    }
}

/// Every node of a list has a shape.
pub open spec fn all_shaped(g: (GssView, Seq<ProductView>), nodes: Seq<GssNodeId>) -> bool {
    forall|i: int|
        0 <= i < nodes.len() ==> has_shape::<CanonicalNodes<'_>>(g, #[trigger] nodes[i])
}

/// The shapes of nodes, in ascending order.
pub open spec fn shapes_of(g: (GssView, Seq<ProductView>), nodes: Seq<GssNodeId>) -> Seq<
    ShapeView,
> {
    keyed_shapes(keyed_ascending(root_keys(g, nodes)))
}

/// The checkpoint of a column.
pub open spec fn checkpoint_of(column: ColumnView, g: (GssView, Seq<ProductView>)) -> CheckpointView {
    let shaped = all_shaped(g, column.base) && all_shaped(g, column.active);
    let base = shapes_of(g, column.base);
    let active = shapes_of(g, column.active);
    CheckpointView {
        anchor: column.boundary,
        key: if shaped {
            Some((base, active))
        } else {
            None
        },
        fingerprint: if shaped {
            frontier_hash(base, active)
        } else {
            0
        },
        error_derived: column.error_derived,
    }
}

/// The checkpoint of a column.
pub fn frontier_checkpoint_for_column(
    column: &ParseColumn,
    gss: &GssArena,
    products: &ProductArena,
) -> (r: FrontierCheckpoint)
    requires
        gss.wf(),
        products.wf(),
    ensures
        r.wf(),
        r@ == checkpoint_of(column@, (gss@, products@)),
{
    let base = column.base_active_nodes();
    let active = column.active_nodes();
    let ghost g = (gss@, products@);
    match gss.canonical_frontier((base.as_slice(), active.as_slice()), products) {
        Some(frontier) => {
            proof {
                let fresh = choose|fresh: Set<usize>|
                    #[trigger] is_frontier(g, base@, active@, fresh, frontier.view());
                assert(all_shaped(g, base@));
                assert(all_shaped(g, active@));
            }
            FrontierCheckpoint {
                anchor: column.boundary,
                fingerprint: frontier.fingerprint,
                key: Some(frontier.key),
                error_derived: column.error_derived,
            }
        },
        None => {
            proof {
                let id = choose|id: usize|
                    (base@.contains(id) || active@.contains(id)) && !#[trigger] has_shape::<
                        CanonicalNodes<'_>,
                    >(g, id);
                if base@.contains(id) {
                    let i = choose|i: int| 0 <= i < base@.len() && base@[i] == id;
                    assert(!has_shape::<CanonicalNodes<'_>>(g, base@[i]));
                } else {
                    let i = choose|i: int| 0 <= i < active@.len() && active@[i] == id;
                    assert(!has_shape::<CanonicalNodes<'_>>(g, active@[i]));
                }
            }
            FrontierCheckpoint {
                anchor: column.boundary,
                key: None,
                fingerprint: 0,
                error_derived: column.error_derived,
            }
        },
    }
}

/// Columns with the same gap, the same marks, and stacks that look the same
/// have checkpoints that match.
pub proof fn lemma_equal_columns_match(
    a: ColumnView,
    b: ColumnView,
    g: (GssView, Seq<ProductView>),
    h: (GssView, Seq<ProductView>),
)
    requires
        a.boundary == b.boundary,
        a.error_derived == b.error_derived,
        all_shaped(g, a.base),
        all_shaped(g, a.active),
        all_shaped(h, b.base),
        all_shaped(h, b.active),
        shapes_of(g, a.base) == shapes_of(h, b.base),
        shapes_of(g, a.active) == shapes_of(h, b.active),
    ensures
        checkpoints_match(checkpoint_of(a, g), checkpoint_of(b, h)),
{
}

} // verus!
