//! Frozen runs of parser columns, which a later replay can take over.

use std::collections::HashMap;
use std::sync::Arc;
use vstd::prelude::*;

use crate::framework::lex::lexed::TokenOccurrenceId;
use crate::framework::parse::data::gss::{GssArena, GssView};
use crate::framework::parse::data::product::{copy_ids, ProductArena, ProductId, ProductView};
use crate::framework::parse::parsing::columns::{
    checkpoint_of, column_views, frontier_checkpoint_for_column, CheckpointView, ColumnView,
    FrontierCheckpoint, ParseColumn,
};
use crate::framework::parse::types::ParserBoundaryId;

verus! {

/// Columns that no longer change, with what is needed to compare them and to
/// attach them behind another column.
pub struct ParseSegment {
    columns: Vec<Arc<ParseColumn>>,
    frontiers: Vec<Arc<FrontierCheckpoint>>,
    /// What the last column accepted when it was frozen.
    raw_accepted: Vec<ProductId>,
    /// What the last column accepts now.
    accepted: Vec<ProductId>,
    /// Products that stand in for those of the columns; later ones count.
    seams: Vec<Arc<HashMap<usize, usize>>>,
    cache_stable: bool,
}

/// What a segment holds.
#[verifier::ext_equal]
pub ghost struct SegmentView {
    pub columns: Seq<ColumnView>,
    pub frontiers: Seq<CheckpointView>,
    pub raw_accepted: Seq<ProductId>,
    pub accepted: Seq<ProductId>,
    pub seams: Seq<Map<ProductId, ProductId>>,
    pub stable: bool,
}

/// What shared columns hold.
pub open spec fn shared_columns(columns: Seq<Arc<ParseColumn>>) -> Seq<ColumnView> {
    columns.map_values(|column: Arc<ParseColumn>| column@)
}

/// What shared checkpoints say.
pub open spec fn shared_frontiers(frontiers: Seq<Arc<FrontierCheckpoint>>) -> Seq<CheckpointView> {
    frontiers.map_values(|frontier: Arc<FrontierCheckpoint>| frontier@)
}

/// What shared seams say.
pub open spec fn shared_seams(seams: Seq<Arc<HashMap<usize, usize>>>) -> Seq<Map<usize, usize>> {
    seams.map_values(|seam: Arc<HashMap<usize, usize>>| seam@)
}

/// The product that stands in for another one: the last seam that names it
/// decides.
pub open spec fn through_seams(seams: Seq<Map<ProductId, ProductId>>, product: ProductId) -> ProductId
    decreases seams.len(),
{
    if seams.len() == 0 {
        product
    } else if seams.last().dom().contains(product) {
        seams.last()[product]
    } else {
        through_seams(seams.drop_last(), product)
    }
}

/// The place of the last column that meets a condition.
pub open spec fn last_place(columns: Seq<ColumnView>, meets: spec_fn(ColumnView) -> bool) -> Option<
    int,
>
    decreases columns.len(),
{
    if columns.len() == 0 {
        None
    } else if meets(columns.last()) {
        Some(columns.len() - 1)
    } else {
        last_place(columns.drop_last(), meets)
    }
}

/// The place of a number, where there is one.
pub open spec fn place(found: Option<usize>) -> Option<int> {
    match found {
        Some(at) => Some(at as int),
        None => None,
    }
}

/// The column behind a token.
pub open spec fn token_place(columns: Seq<ColumnView>, token: TokenOccurrenceId) -> Option<int> {
    last_place(columns, |column: ColumnView| column.token == Some(token))
}

/// The column at a gap.
pub open spec fn boundary_place(columns: Seq<ColumnView>, boundary: ParserBoundaryId) -> Option<int> {
    last_place(columns, |column: ColumnView| column.boundary == Some(boundary))
}

/// The product of the token before a column: the first product, unless a
/// repair led here.
pub open spec fn own_product(column: ColumnView) -> Option<ProductId> {
    if column.token is Some && !column.error_derived && column.products.len() > 0 {
        Some(column.products[0])
    } else {
        None
    }
}

/// The column whose token a product stands for.
pub open spec fn product_place(columns: Seq<ColumnView>, product: ProductId) -> Option<int> {
    last_place(columns, |column: ColumnView| own_product(column) == Some(product))
}

/// How many columns a repair led to.
pub open spec fn errors_in(columns: Seq<ColumnView>) -> nat
    decreases columns.len(),
{
    if columns.len() == 0 {
        0
    } else {
        errors_in(columns.drop_first()) + if columns[0].error_derived {
            1nat
        } else {
            0nat
        }
    }
}

pub proof fn lemma_errors_bound(columns: Seq<ColumnView>)
    ensures
        errors_in(columns) <= columns.len(),
    decreases columns.len(),
{
    if columns.len() > 0 {
        lemma_errors_bound(columns.drop_first());
    }
}

/// The segment of columns that were just made.
pub open spec fn segment_of(columns: Seq<ColumnView>, g: (GssView, Seq<ProductView>)) -> SegmentView {
    let accepted = if columns.len() > 0 {
        columns.last().accepted
    } else {
        Seq::empty()
    };
    SegmentView {
        columns,
        frontiers: columns.map_values(|column: ColumnView| checkpoint_of(column, g)),
        raw_accepted: accepted,
        accepted,
        seams: Seq::empty(),
        stable: true,
    }
}

/// A part of a segment. Only a part that reaches the end accepts.
pub open spec fn part_of_segment(v: SegmentView, start: int, end: int) -> SegmentView {
    let ends = end == v.columns.len();
    SegmentView {
        columns: v.columns.subrange(start, end),
        frontiers: v.frontiers.subrange(start, end),
        raw_accepted: if ends {
            v.raw_accepted
        } else {
            Seq::empty()
        },
        accepted: if ends {
            v.accepted
        } else {
            Seq::empty()
        },
        ..v
    }
}

/// Two segments, one behind the other.
pub open spec fn joined_segments(a: SegmentView, b: SegmentView) -> SegmentView {
    if a.columns.len() == 0 {
        b
    } else if b.columns.len() == 0 {
        a
    } else {
        SegmentView {
            columns: a.columns + b.columns,
            frontiers: a.frontiers + b.frontiers,
            raw_accepted: b.raw_accepted,
            accepted: b.accepted,
            seams: a.seams + b.seams,
            stable: a.stable && b.stable,
        }
    }
}

/// The token that a product of a segment stands for.
pub open spec fn occurrence_of(v: SegmentView, product: ProductId) -> Option<TokenOccurrenceId> {
    match product_place(v.columns, product) {
        Some(at) => v.columns[at].token,
        None => None,
    }
}

/// The product of a token in a segment.
pub open spec fn segment_token_product(v: SegmentView, token: TokenOccurrenceId) -> Option<ProductId> {
    match token_place(v.columns, token) {
        Some(at) => match own_product(v.columns[at]) {
            Some(product) => Some(through_seams(v.seams, product)),
            None => None,
        },
        None => None,
    }
}

impl ParseSegment {
    pub closed spec fn view(self) -> SegmentView {
        SegmentView {
            columns: shared_columns(self.columns@),
            frontiers: shared_frontiers(self.frontiers@),
            raw_accepted: self.raw_accepted@,
            accepted: self.accepted@,
            seams: shared_seams(self.seams@),
            stable: self.cache_stable,
        }
    }

    /// Every column has a checkpoint.
    pub closed spec fn wf(self) -> bool {
        &&& self.columns@.len() == self.frontiers@.len()
        &&& forall|i: int| 0 <= i < self.frontiers@.len() ==> (#[trigger] self.frontiers@[i]).wf()
    }

    /// What a well formed segment promises.
    pub proof fn lemma_wf(self)
        requires
            self.wf(),
        ensures
            self.view().columns.len() == self.view().frontiers.len(),
            self.view().columns.len() <= usize::MAX,
    {
        assert(self.columns.len() == self.columns@.len());
    }

    /// Freezes columns.
    pub fn from_columns(columns: Vec<ParseColumn>, gss: &GssArena, products: &ProductArena) -> (r:
        Self)
        requires
            gss.wf(),
            products.wf(),
        ensures
            r.wf(),
            r.view() == segment_of(column_views(columns@), (gss@, products@)),
    {
        let ghost all = column_views(columns@);
        let ghost g = (gss@, products@);
        let total: usize = columns.len();
        let accepted = if total > 0 {
            copy_ids(&columns[total - 1].accepted)
        } else {
            Vec::new()
        };
        let raw_accepted = copy_ids(&accepted);
        let mut shared: Vec<Arc<ParseColumn>> = Vec::new();
        let mut frontiers: Vec<Arc<FrontierCheckpoint>> = Vec::new();
        let mut at: usize = 0;
        while at < total
            invariant
                at <= total,
                total == columns@.len(),
                gss.wf(),
                products.wf(),
                g == (gss@, products@),
                all == column_views(columns@),
                shared_columns(shared@) == all.take(at as int),
                shared@.len() == at,
                frontiers@.len() == at,
                forall|i: int| 0 <= i < at ==> (#[trigger] frontiers@[i]).wf(),
                forall|i: int|
                    0 <= i < at ==> (#[trigger] frontiers@[i])@ == checkpoint_of(all[i], g),
            decreases total - at,
        {
            let column = &columns[at];
            let checkpoint = frontier_checkpoint_for_column(column, gss, products);
            frontiers.push(Arc::new(checkpoint));
            let ghost before = shared@;
            shared.push(Arc::new(column.copied()));
            proof {
                assert(shared_columns(shared@) =~= shared_columns(before).push(all[at as int]));
                assert(all.take(at as int + 1) =~= all.take(at as int).push(all[at as int]));
            }
            at += 1;
        }
        let r = ParseSegment {
            columns: shared,
            frontiers,
            raw_accepted,
            accepted,
            seams: Vec::new(),
            cache_stable: true,
        };
        proof {
            assert(all.take(at as int) =~= all);
            assert(r.view() =~= segment_of(all, g));
        }
        r
    }

    /// The number of columns.
    pub fn len(&self) -> (r: usize)
        ensures
            r == self.view().columns.len(),
    {
        self.columns.len()
    }

    pub fn is_empty(&self) -> (r: bool)
        ensures
            r == (self.view().columns.len() == 0),
    {
        self.columns.len() == 0
    }

    /// What the last column accepts now.
    pub fn accepted(&self) -> (r: &Vec<ProductId>)
        ensures
            r@ == self.view().accepted,
    {
        &self.accepted
    }

    /// What the last column accepted when it was frozen.
    pub fn raw_accepted(&self) -> (r: &Vec<ProductId>)
        ensures
            r@ == self.view().raw_accepted,
    {
        &self.raw_accepted
    }

    /// The column at a place.
    pub fn column(&self, index: usize) -> (r: Option<&ParseColumn>)
        ensures
            match r {
                Some(column) => index < self.view().columns.len() && column@
                    == self.view().columns[index as int],
                None => index >= self.view().columns.len(),
            },
    {
        if index < self.columns.len() {
            Some(&self.columns[index])
        } else {
            None
        }
    }

    /// The checkpoint at a place.
    pub fn frontier(&self, index: usize) -> (r: Option<&FrontierCheckpoint>)
        requires
            self.wf(),
        ensures
            match r {
                Some(frontier) => index < self.view().columns.len() && frontier.wf() && frontier@
                    == self.view().frontiers[index as int],
                None => index >= self.view().columns.len(),
            },
    {
        if index < self.frontiers.len() {
            assert(self.frontiers@[index as int].wf());
            Some(&self.frontiers[index])
        } else {
            None
        }
    }

    /// The column behind a token.
    pub fn token_column(&self, token: TokenOccurrenceId) -> (r: Option<usize>)
        ensures
            place(r) == token_place(self.view().columns, token),
    {
        let ghost meets = |column: ColumnView| column.token == Some(token);
        let ghost all = self.view().columns;
        let mut left: usize = self.columns.len();
        assert(all.take(left as int) =~= all);
        while left > 0
            invariant
                left <= all.len(),
                all == self.view().columns,
                meets == (|column: ColumnView| column.token == Some(token)),
                last_place(all, meets) == last_place(all.take(left as int), meets),
            decreases left,
        {
            proof {
                assert(all.take(left as int).drop_last() =~= all.take(left - 1));
                assert(all.take(left as int).last() == all[left - 1]);
            }
            left -= 1;
            if let Some(found) = self.columns[left].token {
                if found == token {
                    return Some(left);
                }
            }
        }
        None
    }

    /// The column at a gap.
    pub fn boundary_column(&self, boundary: ParserBoundaryId) -> (r: Option<usize>)
        ensures
            place(r) == boundary_place(self.view().columns, boundary),
    {
        let ghost meets = |column: ColumnView| column.boundary == Some(boundary);
        let ghost all = self.view().columns;
        let mut left: usize = self.columns.len();
        assert(all.take(left as int) =~= all);
        while left > 0
            invariant
                left <= all.len(),
                all == self.view().columns,
                meets == (|column: ColumnView| column.boundary == Some(boundary)),
                last_place(all, meets) == last_place(all.take(left as int), meets),
            decreases left,
        {
            proof {
                assert(all.take(left as int).drop_last() =~= all.take(left - 1));
                assert(all.take(left as int).last() == all[left - 1]);
            }
            left -= 1;
            if let Some(found) = self.columns[left].boundary {
                if found == boundary {
                    return Some(left);
                }
            }
        }
        None
    }

    /// The token that a product stands for.
    pub fn product_occurrence(&self, product: ProductId) -> (r: Option<TokenOccurrenceId>)
        ensures
            r == occurrence_of(self.view(), product),
    {
        let ghost meets = |column: ColumnView| own_product(column) == Some(product);
        let ghost all = self.view().columns;
        let mut left: usize = self.columns.len();
        assert(all.take(left as int) =~= all);
        while left > 0
            invariant
                left <= all.len(),
                all == self.view().columns,
                meets == (|column: ColumnView| own_product(column) == Some(product)),
                last_place(all, meets) == last_place(all.take(left as int), meets),
            decreases left,
        {
            proof {
                assert(all.take(left as int).drop_last() =~= all.take(left - 1));
                assert(all.take(left as int).last() == all[left - 1]);
            }
            left -= 1;
            let column = &self.columns[left];
            assert(column@ == all[left as int]);
            if column.token.is_some() && !column.error_derived && column.products.len() > 0 {
                if column.products[0] == product {
                    return column.token;
                }
            }
        }
        None
    }

    /// The product that stands in for a product of the columns.
    fn through(&self, product: ProductId) -> (r: ProductId)
        ensures
            r == through_seams(self.view().seams, product),
    {
        broadcast use vstd::std_specs::hash::group_hash_axioms;

        let ghost all = self.view().seams;
        let mut left: usize = self.seams.len();
        assert(all.take(left as int) =~= all);
        while left > 0
            invariant
                left <= all.len(),
                all == self.view().seams,
                through_seams(all, product) == through_seams(all.take(left as int), product),
            decreases left,
        {
            broadcast use vstd::std_specs::hash::group_hash_axioms;

            proof {
                assert(all.take(left as int).drop_last() =~= all.take(left - 1));
                assert(all.take(left as int).last() == all[left - 1]);
            }
            left -= 1;
            assert(self.seams@[left as int]@ == all[left as int]);
            if let Some(found) = self.seams[left].get(&product) {
                return *found;
            }
        }
        product
    }

    /// The product of a token.
    pub fn token_product(&self, token: TokenOccurrenceId) -> (r: Option<ProductId>)
        ensures
            r == segment_token_product(self.view(), token),
    {
        match self.token_column(token) {
            Some(at) => {
                proof {
                    lemma_last_place(
                        self.view().columns,
                        |column: ColumnView| column.token == Some(token),
                    );
                }
                let column = &self.columns[at];
                assert(column@ == self.view().columns[at as int]);
                if !column.error_derived && column.products.len() > 0 {
                    Some(self.through(column.products[0]))
                } else {
                    None
                }
            },
            None => None,
        }
    }

    /// The same columns behind other stacks: `seam` names the products that
    /// stand in for those of the columns.
    pub fn attach_seam(&self, seam: HashMap<usize, usize>, accepted: Vec<ProductId>) -> (r: Self)
        requires
            self.wf(),
        ensures
            r.wf(),
            r.view() == (SegmentView {
                accepted: accepted@,
                seams: seq![seam@],
                ..self.view()
            }),
    {
        let ghost said = seam@;
        let mut seams: Vec<Arc<HashMap<usize, usize>>> = Vec::new();
        seams.push(Arc::new(seam));
        let part = self.slice(0, self.columns.len());
        let r = ParseSegment {
            columns: part.columns,
            frontiers: part.frontiers,
            raw_accepted: part.raw_accepted,
            accepted,
            seams,
            cache_stable: self.cache_stable,
        };
        proof {
            assert(shared_seams(r.seams@) =~= seq![said]);
            assert(self.view().columns.subrange(0, self.view().columns.len() as int)
                =~= self.view().columns);
            assert(self.view().frontiers.subrange(0, self.view().columns.len() as int)
                =~= self.view().frontiers);
        }
        r
    }

    /// A part of the segment.
    pub fn slice(&self, start: usize, end: usize) -> (r: Self)
        requires
            self.wf(),
            start <= end <= self.view().columns.len(),
        ensures
            r.wf(),
            r.view() == part_of_segment(self.view(), start as int, end as int),
    {
        let mut columns: Vec<Arc<ParseColumn>> = Vec::new();
        let mut frontiers: Vec<Arc<FrontierCheckpoint>> = Vec::new();
        let mut at: usize = start;
        while at < end
            invariant
                self.wf(),
                start <= at <= end <= self.columns@.len(),
                columns@.len() == at - start,
                frontiers@.len() == at - start,
                forall|i: int| 0 <= i < at - start ==> #[trigger] columns@[i] == self.columns@[start
                    + i],
                forall|i: int|
                    0 <= i < at - start ==> #[trigger] frontiers@[i] == self.frontiers@[start + i],
            decreases end - at,
        {
            columns.push(Arc::clone(&self.columns[at]));
            frontiers.push(Arc::clone(&self.frontiers[at]));
            at += 1;
        }
        let ends = end == self.columns.len();
        let r = ParseSegment {
            columns,
            frontiers,
            raw_accepted: if ends {
                copy_ids(&self.raw_accepted)
            } else {
                Vec::new()
            },
            accepted: if ends {
                copy_ids(&self.accepted)
            } else {
                Vec::new()
            },
            seams: copy_seams(&self.seams),
            cache_stable: self.cache_stable,
        };
        proof {
            assert(r.view() =~= part_of_segment(self.view(), start as int, end as int));
        }
        r
    }

    /// Two segments, one behind the other.
    pub fn concat(left: Self, right: Self) -> (r: Self)
        requires
            left.wf(),
            right.wf(),
        ensures
            r.wf(),
            r.view() == joined_segments(left.view(), right.view()),
    {
        if left.columns.len() == 0 {
            return right;
        }
        if right.columns.len() == 0 {
            return left;
        }
        let ghost a = left.view();
        let ghost b = right.view();
        let mut columns = left.columns;
        let mut frontiers = left.frontiers;
        let mut seams = left.seams;
        let mut tail_columns = right.columns;
        let mut tail_frontiers = right.frontiers;
        let mut tail_seams = right.seams;
        columns.append(&mut tail_columns);
        frontiers.append(&mut tail_frontiers);
        seams.append(&mut tail_seams);
        let r = ParseSegment {
            columns,
            frontiers,
            raw_accepted: right.raw_accepted,
            accepted: right.accepted,
            seams,
            cache_stable: left.cache_stable && right.cache_stable,
        };
        proof {
            assert(r.view() =~= joined_segments(a, b));
        }
        r
    }

    /// Whether no repair led to a column from a place on.
    pub fn is_clean_from(&self, index: usize) -> (r: bool)
        ensures
            r == forall|i: int|
                index <= i < self.view().columns.len()
                    ==> !(#[trigger] self.view().columns[i]).error_derived,
    {
        let mut at: usize = index;
        while at < self.columns.len()
            invariant
                index <= at,
                forall|i: int|
                    index <= i < at && i < self.view().columns.len()
                        ==> !(#[trigger] self.view().columns[i]).error_derived,
            decreases self.columns@.len() - at,
        {
            assert(self.view().columns[at as int] == self.columns@[at as int]@);
            if self.columns[at].error_derived {
                return false;
            }
            at += 1;
        }
        true
    }

    /// Whether the columns' products are those that a replay would find.
    pub fn products_cache_stable(&self) -> (r: bool)
        ensures
            r == self.view().stable,
    {
        self.cache_stable
    }

    /// To how many columns from a place on a repair led.
    pub fn error_count_after(&self, index: usize) -> (r: usize)
        ensures
            r == if index <= self.view().columns.len() {
                errors_in(self.view().columns.skip(index as int))
            } else {
                0
            },
    {
        let ghost all = self.view().columns;
        let total: usize = self.columns.len();
        if index >= total {
            assert(index == total ==> all.skip(index as int) =~= Seq::<ColumnView>::empty());
            return 0;
        }
        let mut count: usize = 0;
        let mut at: usize = total;
        assert(all.skip(total as int) =~= Seq::<ColumnView>::empty());
        while at > index
            invariant
                index <= at <= total,
                total == all.len(),
                all == self.view().columns,
                count == errors_in(all.skip(at as int)),
                count <= total - at,
            decreases at,
        {
            at -= 1;
            assert(all.skip(at as int).drop_first() =~= all.skip(at as int + 1));
            assert(all[at as int] == self.columns@[at as int]@);
            if self.columns[at].error_derived {
                count += 1;
            }
        }
        count
    }

    /// Copies of the columns, to go on with.
    pub fn materialize(&self) -> (r: Vec<ParseColumn>)
        ensures
            column_views(r@) == self.view().columns,
    {
        let mut out: Vec<ParseColumn> = Vec::new();
        let ghost all = self.view().columns;
        let mut at: usize = 0;
        while at < self.columns.len()
            invariant
                at <= self.columns@.len(),
                all == self.view().columns,
                column_views(out@) == all.take(at as int),
            decreases self.columns@.len() - at,
        {
            let ghost before = out@;
            out.push(self.columns[at].copied());
            proof {
                assert(column_views(out@) =~= column_views(before).push(all[at as int]));
                assert(all.take(at as int + 1) =~= all.take(at as int).push(all[at as int]));
            }
            at += 1;
        }
        assert(all.take(at as int) =~= all);
        out
    }
}

/// The last place that meets a condition meets it.
pub proof fn lemma_last_place(columns: Seq<ColumnView>, meets: spec_fn(ColumnView) -> bool)
    ensures
        match last_place(columns, meets) {
            Some(at) => 0 <= at < columns.len() && meets(columns[at]) && forall|i: int|
                at < i < columns.len() ==> !meets(#[trigger] columns[i]),
            None => forall|i: int| 0 <= i < columns.len() ==> !meets(#[trigger] columns[i]),
        },
    decreases columns.len(),
{
    if columns.len() > 0 && !meets(columns.last()) {
        let rest = columns.drop_last();
        lemma_last_place(rest, meets);
        assert forall|i: int| 0 <= i < rest.len() implies rest[i] == #[trigger] columns[i] by {}
    }
}

fn copy_seams(seams: &Vec<Arc<HashMap<usize, usize>>>) -> (r: Vec<Arc<HashMap<usize, usize>>>)
    ensures
        r@ == seams@,
{
    let mut out: Vec<Arc<HashMap<usize, usize>>> = Vec::new();
    let mut at: usize = 0;
    while at < seams.len()
        invariant
            at <= seams@.len(),
            out@ == seams@.take(at as int),
        decreases seams@.len() - at,
    {
        out.push(Arc::clone(&seams[at]));
        assert(out@ =~= seams@.take(at as int + 1));
        at += 1;
    }
    assert(out@ =~= seams@);
    out
}

/// A segment that is cut in two and joined again holds what it held; seams are
/// repeated without effect.
pub proof fn lemma_cut_and_join(v: SegmentView, at: int, product: ProductId)
    requires
        0 <= at <= v.columns.len(),
        v.frontiers.len() == v.columns.len(),
    ensures
        ({
            let joined = joined_segments(
                part_of_segment(v, 0, at),
                part_of_segment(v, at, v.columns.len() as int),
            );
            &&& joined.columns == v.columns
            &&& joined.frontiers == v.frontiers
            &&& joined.accepted == v.accepted
            &&& joined.raw_accepted == v.raw_accepted
            &&& joined.stable == v.stable
            &&& through_seams(joined.seams, product) == through_seams(v.seams, product)
        }),
{
    let end = v.columns.len() as int;
    let joined = joined_segments(part_of_segment(v, 0, at), part_of_segment(v, at, end));
    assert(v.columns.subrange(0, at) + v.columns.subrange(at, end) =~= v.columns);
    assert(v.frontiers.subrange(0, at) + v.frontiers.subrange(at, end) =~= v.frontiers);
    assert(v.columns.subrange(0, end) =~= v.columns);
    assert(v.frontiers.subrange(0, end) =~= v.frontiers);
    if at > 0 && at < end {
        lemma_seams_repeat(v.seams, v.seams, product);
    }
}

/// A seam names a product.
spec fn named(seams: Seq<Map<ProductId, ProductId>>, product: ProductId) -> bool {
    exists|i: int| 0 <= i < seams.len() && (#[trigger] seams[i]).dom().contains(product)
}

proof fn lemma_seams_repeat(
    first: Seq<Map<ProductId, ProductId>>,
    second: Seq<Map<ProductId, ProductId>>,
    product: ProductId,
)
    ensures
        named(second, product) ==> through_seams(first + second, product) == through_seams(
            second,
            product,
        ),
        !named(second, product) ==> through_seams(first + second, product) == through_seams(
            first,
            product,
        ) && through_seams(second, product) == product,
    decreases second.len(),
{
    if second.len() == 0 {
        assert(first + second =~= first);
    } else {
        let rest = second.drop_last();
        let last = second.len() - 1;
        lemma_seams_repeat(first, rest, product);
        assert((first + second).drop_last() =~= first + rest);
        assert((first + second).last() == second[last]);
        if second[last].dom().contains(product) {
            assert(named(second, product));
        } else {
            if named(second, product) {
                let i = choose|i: int|
                    0 <= i < second.len() && (#[trigger] second[i]).dom().contains(product);
                assert(rest[i] == second[i]);
                assert(named(rest, product));
            }
            if named(rest, product) {
                let i = choose|i: int|
                    0 <= i < rest.len() && (#[trigger] rest[i]).dom().contains(product);
                assert(second[i] == rest[i]);
                assert(named(second, product));
            }
        }
    }
}

} // verus!
