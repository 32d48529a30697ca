//! What a parser keeps of one document between commands.

use vstd::prelude::*;

use crate::framework::lex::lexed::TokenOccurrenceId;
use crate::framework::parse::data::green::ParseErrorInfo;
use crate::framework::parse::data::gss::{GssArena, GssView};
use crate::framework::parse::data::product::{copy_ids, ProductArena, ProductId, ProductView};
use crate::framework::parse::diagnostics::{all_noted, noted};
use crate::framework::parse::parsing::columns::{
    column_views, reset_column, ColumnView, ParseColumn,
};
use crate::framework::parse::parsing::lineage::{
    no_lineages, rolled_back, LineageMark, LineageState,
};
use crate::framework::parse::parsing::reductions::{CacheView, ReductionCache};
use crate::framework::parse::parsing::repairs::{
    RecoveryJournalEntry, RecoveryState, RecoveryView,
};
use crate::framework::parse::parsing::segment::{
    boundary_place, errors_in, joined_segments, lemma_errors_bound, lemma_last_place, own_product,
    part_of_segment, segment_of, segment_token_product, token_place, ParseSegment, SegmentView,
};
use crate::framework::parse::types::ParserBoundaryId;
use crate::store::{BucketMap, RadixMap};

verus! {

/// The parser's state for one document. The first columns can change; a frozen
/// run may stand behind them.
pub struct ParserSessionState {
    pub columns: Vec<ParseColumn>,
    pub retained_suffix: Option<ParseSegment>,
    pub generation: u32,
    pub diagnostics: Vec<ParseErrorInfo>,
    pub boundary_columns: BucketMap<ParserBoundaryId, usize>,
    pub token_columns: RadixMap<usize>,
    pub token_products: RadixMap<ProductId>,
    pub recovery: RecoveryState,
    pub reductions: ReductionCache,
    pub lineage: LineageState,
}

/// What is known of columns.
#[verifier::ext_equal]
pub ghost struct SessionView {
    pub columns: Seq<ColumnView>,
    pub suffix: Option<SegmentView>,
    pub generation: u32,
    pub diagnostics: Seq<ParseErrorInfo>,
    /// By gap, the column at it.
    pub boundaries: Map<ParserBoundaryId, usize>,
    /// By token, the column behind it.
    pub token_columns: Map<u64, usize>,
    pub token_products: Map<u64, ProductId>,
}

/// What a frozen run holds, where there is one.
pub open spec fn suffix_view(suffix: Option<ParseSegment>) -> Option<SegmentView> {
    match suffix {
        Some(segment) => Some(segment.view()),
        None => None,
    }
}

impl View for ParserSessionState {
    type V = SessionView;

    open spec fn view(&self) -> SessionView {
        SessionView {
            columns: column_views(self.columns@),
            suffix: suffix_view(self.retained_suffix),
            generation: self.generation,
            diagnostics: self.diagnostics@,
            boundaries: self.boundary_columns@,
            token_columns: self.token_columns@,
            token_products: self.token_products@,
        }
    }
}

/// What the gaps and the tokens lead to is a column at that gap or behind that
/// token.
pub open spec fn led_right(v: SessionView) -> bool {
    &&& forall|boundary: ParserBoundaryId| #[trigger]
        v.boundaries.dom().contains(boundary) ==> v.boundaries[boundary] < v.columns.len()
            && v.columns[v.boundaries[boundary] as int].boundary == Some(boundary)
    &&& forall|token: u64| #[trigger]
        v.token_columns.dom().contains(token) ==> v.token_columns[token] < v.columns.len()
            && v.columns[v.token_columns[token] as int].token == Some(TokenOccurrenceId(token))
}

/// The entries of a map that lead below a number.
pub open spec fn below<K>(map: Map<K, usize>, end: int) -> Map<K, usize> {
    Map::new(|key: K| map.dom().contains(key) && map[key] < end, |key: K| map[key])
}

/// Columns may have come, but the first ones are what they were, and what
/// stands behind them too; the others keep their tokens and gaps. Diagnostics
/// only come.
pub open spec fn extends_columns(v: SessionView, w: SessionView, keep: int) -> bool {
    &&& w.columns.len() >= v.columns.len()
    &&& forall|i: int| 0 <= i < keep ==> #[trigger] w.columns[i] == v.columns[i]
    &&& forall|i: int|
        0 <= i < v.columns.len() ==> (#[trigger] w.columns[i]).token == v.columns[i].token
            && w.columns[i].boundary == v.columns[i].boundary
    &&& w.suffix == v.suffix
    &&& w.generation == v.generation
    &&& v.diagnostics.is_prefix_of(w.diagnostics)
}

/// How many columns there are.
pub open spec fn column_total(v: SessionView) -> nat {
    v.columns.len() + match v.suffix {
        Some(segment) => segment.columns.len(),
        None => 0,
    }
}

/// The column at a place.
pub open spec fn column_of(v: SessionView, index: int) -> Option<ColumnView> {
    if 0 <= index < v.columns.len() {
        Some(v.columns[index])
    } else {
        match v.suffix {
            Some(segment) => if v.columns.len() <= index < column_total(v) {
                Some(segment.columns[index - v.columns.len()])
            } else {
                None
            },
            None => None,
        }
    }
}

/// What the last column accepts.
pub open spec fn accepted_of(v: SessionView) -> Seq<ProductId> {
    match v.suffix {
        Some(segment) => segment.accepted,
        None => if v.columns.len() > 0 {
            v.columns.last().accepted
        } else {
            Seq::empty()
        },
    }
}

/// The column at a gap.
pub open spec fn boundary_column_of(v: SessionView, boundary: ParserBoundaryId) -> Option<int> {
    if v.boundaries.dom().contains(boundary) {
        Some(v.boundaries[boundary] as int)
    } else {
        match v.suffix {
            Some(segment) => match boundary_place(segment.columns, boundary) {
                Some(at) => Some(v.columns.len() + at),
                None => None,
            },
            None => None,
        }
    }
}

/// The product of a token.
pub open spec fn token_product_of(v: SessionView, token: TokenOccurrenceId) -> Option<ProductId> {
    if v.token_products.dom().contains(token.0) {
        Some(v.token_products[token.0])
    } else {
        match v.suffix {
            Some(segment) => segment_token_product(segment, token),
            None => None,
        }
    }
}

/// The state with the gap of a column named.
pub open spec fn with_boundary(v: SessionView, index: int, boundary: Option<ParserBoundaryId>) -> SessionView {
    if 0 <= index < v.columns.len() {
        let cleared = match v.columns[index].boundary {
            Some(previous) => if v.boundaries.dom().contains(previous)
                && v.boundaries[previous] == index {
                v.boundaries.remove(previous)
            } else {
                v.boundaries
            },
            None => v.boundaries,
        };
        SessionView {
            columns: v.columns.update(index, ColumnView { boundary, ..v.columns[index] }),
            boundaries: match boundary {
                Some(found) => cleared.insert(found, index as usize),
                None => cleared,
            },
            ..v
        }
    } else {
        v
    }
}

/// The state with one column more.
pub open spec fn with_column(v: SessionView, column: ColumnView) -> SessionView {
    let index = v.columns.len() as usize;
    SessionView {
        columns: v.columns.push(column),
        boundaries: match column.boundary {
            Some(boundary) => v.boundaries.insert(boundary, index),
            None => v.boundaries,
        },
        token_columns: match column.token {
            Some(token) => v.token_columns.insert(token.0, index),
            None => v.token_columns,
        },
        token_products: match (column.token, own_product(column)) {
            (Some(token), Some(product)) => v.token_products.insert(token.0, product),
            _ => v.token_products,
        },
        diagnostics: all_noted(v.diagnostics, column.diagnostics),
        ..v
    }
}

/// The state with columns more.
pub open spec fn with_columns(v: SessionView, columns: Seq<ColumnView>) -> SessionView
    decreases columns.len(),
{
    if columns.len() == 0 {
        v
    } else {
        with_column(with_columns(v, columns.drop_last()), columns.last())
    }
}

/// The state with columns up to a place ready to change.
pub open spec fn with_prefix(v: SessionView, end: int) -> SessionView {
    match v.suffix {
        Some(segment) => if end + 1 <= v.columns.len() || v.columns.len() >= usize::MAX {
            v
        } else {
            let wanted = end + 1 - v.columns.len();
            let take = if wanted < segment.columns.len() {
                wanted
            } else {
                segment.columns.len() as int
            };
            let grown = with_columns(
                SessionView { suffix: None, ..v },
                segment.columns.subrange(0, take),
            );
            SessionView {
                suffix: if take < segment.columns.len() {
                    Some(part_of_segment(segment, take, segment.columns.len() as int))
                } else {
                    None
                },
                ..grown
            }
        },
        None => v,
    }
}

/// The state with all columns frozen.
pub open spec fn sealed_session(v: SessionView, g: (GssView, Seq<ProductView>)) -> SessionView {
    if v.columns.len() == 0 {
        v
    } else {
        let prefix = segment_of(v.columns, g);
        SessionView {
            columns: Seq::empty(),
            suffix: Some(
                match v.suffix {
                    Some(segment) => joined_segments(prefix, segment),
                    None => prefix,
                },
            ),
            boundaries: Map::empty(),
            token_columns: Map::empty(),
            token_products: Map::empty(),
            ..v
        }
    }
}

/// A diagnostic of an earlier column.
pub open spec fn located_below(info: ParseErrorInfo, column: usize) -> bool {
    info.location is Some && info.location->Some_0 < column
}

/// The state taken back to a column.
pub open spec fn truncated(v: SessionView, column: int) -> SessionView {
    let tokens = below(v.token_columns, column + 1);
    SessionView {
        columns: v.columns.take(column).push(reset_column(v.columns[column])),
        suffix: None,
        generation: (v.generation + 1) as u32,
        diagnostics: v.diagnostics.filter(
            |info: ParseErrorInfo| located_below(info, column as usize),
        ),
        boundaries: below(v.boundaries, column + 1),
        token_columns: tokens,
        token_products: v.token_products.restrict(tokens.dom()),
    }
}

/// The columns that a cut detaches, as a frozen run.
pub open spec fn detached_of(v: SessionView, start: int, g: (GssView, Seq<ProductView>)) -> Option<
    SegmentView,
> {
    let total = column_total(v);
    let cut = if start < total {
        start
    } else {
        total as int
    };
    if cut < v.columns.len() {
        let tail = segment_of(v.columns.subrange(cut, v.columns.len() as int), g);
        Some(
            match v.suffix {
                Some(segment) => joined_segments(tail, segment),
                None => tail,
            },
        )
    } else {
        match v.suffix {
            Some(segment) => Some(
                part_of_segment(segment, cut - v.columns.len(), segment.columns.len() as int),
            ),
            None => None,
        }
    }
}

/// A token is in a frozen run before a place that is counted from the first
/// column.
pub open spec fn token_before(run: SegmentView, columns: nat, start: int, token: u64) -> bool {
    match token_place(run.columns, TokenOccurrenceId(token)) {
        Some(at) => columns + at < start,
        None => false,
    }
}

/// The state after a cut.
pub open spec fn cut_session(v: SessionView, start: int, g: (GssView, Seq<ProductView>)) -> SessionView {
    let total = column_total(v);
    let cut = if start < total {
        start
    } else {
        total as int
    };
    match detached_of(v, start, g) {
        Some(run) => {
            let kept = if cut < v.columns.len() {
                cut
            } else {
                v.columns.len() as int
            };
            let tokens = below(v.token_columns, cut);
            SessionView {
                columns: v.columns.take(kept),
                suffix: None,
                boundaries: below(v.boundaries, kept),
                token_columns: tokens,
                token_products: v.token_products.restrict(
                    Set::new(
                        |token: u64|
                            tokens.dom().contains(token) || token_before(
                                run,
                                kept as nat,
                                cut,
                                token,
                            ),
                    ),
                ),
                ..v
            }
        },
        None => v,
    }
}

/// To how many columns behind a place repairs led.
pub open spec fn recovered_after(v: SessionView, start: int) -> nat {
    errors_in(
        v.columns.skip(
            if start + 1 < v.columns.len() {
                start + 1
            } else {
                v.columns.len() as int
            },
        ),
    ) + match v.suffix {
        Some(segment) => {
            let from = if start + 1 > v.columns.len() {
                start + 1 - v.columns.len()
            } else {
                0
            };
            if from <= segment.columns.len() {
                errors_in(segment.columns.skip(from))
            } else {
                0
            }
        },
        None => 0,
    }
}

impl ParserSessionState {
    /// The state is sound, and its maps lead right.
    pub open spec fn wf(self) -> bool {
        &&& self.retained_suffix is Some ==> self.retained_suffix->Some_0.wf()
        &&& self.boundary_columns.wf()
        &&& self.token_columns.wf()
        &&& self.token_products.wf()
        &&& self.recovery.wf()
        &&& self.reductions.wf()
        &&& self.lineage.wf()
        &&& led_right(self@)
    }

    /// Nothing but what is known of columns may differ.
    pub open spec fn kept_from(self, other: Self) -> bool {
        &&& self.recovery == other.recovery
        &&& self.reductions == other.reductions
        &&& self.lineage == other.lineage
    }

    /// The state of a document that was never parsed: there are no columns, and
    /// nothing was repaired, reduced or named yet.
    pub fn new() -> (r: Self)
        ensures
            r.wf(),
            r@ == (SessionView {
                columns: Seq::empty(),
                suffix: None,
                generation: 0,
                diagnostics: Seq::empty(),
                boundaries: Map::empty(),
                token_columns: Map::empty(),
                token_products: Map::empty(),
            }),
            r.recovery.next_recovery_segment == 0,
            r.recovery.synthetic_tokens@ == Map::<u64, u64>::empty(),
            r.recovery.next_synthetic_ordinal == 0,
            r.recovery.active_recovery_segment is None,
            r.recovery.document_serial == 0,
            r.recovery.witness_intervals@ == Map::<u64, Vec<u64>>::empty(),
            r.recovery.journal@ == Map::<u64, RecoveryJournalEntry>::empty(),
            r.reductions.view() == (CacheView { products: Map::empty(), origins: Map::empty() }),
            r.lineage@ == no_lineages(),
    {
        let r = ParserSessionState {
            columns: Vec::new(),
            retained_suffix: None,
            generation: 0,
            diagnostics: Vec::new(),
            boundary_columns: BucketMap::new(),
            token_columns: RadixMap::new(),
            token_products: RadixMap::new(),
            recovery: RecoveryState::new(),
            reductions: ReductionCache::new(),
            lineage: LineageState::new(),
        };
        assert(r@.columns =~= Seq::<ColumnView>::empty());
        r
    }

    /// What the last column accepts.
    pub fn accepted(&self) -> (r: Vec<ProductId>)
        ensures
            r@ == accepted_of(self@),
    {
        match &self.retained_suffix {
            Some(segment) => copy_ids(segment.accepted()),
            None => {
                let total: usize = self.columns.len();
                if total > 0 {
                    assert(self@.columns[total - 1] == self.columns@[total - 1]@);
                    copy_ids(&self.columns[total - 1].accepted)
                } else {
                    Vec::new()
                }
            },
        }
    }

    /// How many columns there are.
    pub fn column_count(&self) -> (r: usize)
        requires
            column_total(self@) <= usize::MAX,
        ensures
            r == column_total(self@),
    {
        match &self.retained_suffix {
            Some(segment) => self.columns.len() + segment.len(),
            None => self.columns.len(),
        }
    }

    /// The last column.
    pub fn current_column(&self) -> (r: usize)
        requires
            column_total(self@) <= usize::MAX,
        ensures
            r == if column_total(self@) > 0 {
                column_total(self@) - 1
            } else {
                0
            },
    {
        let count: usize = self.column_count();
        if count > 0 {
            count - 1
        } else {
            0
        }
    }

    /// Names the gap of a column.
    pub fn set_column_boundary(&mut self, index: usize, boundary: Option<ParserBoundaryId>)
        requires
            old(self).wf(),
        ensures
            final(self).wf(),
            final(self)@ == with_boundary(old(self)@, index as int, boundary),
            final(self).kept_from(*old(self)),
    {
        let ghost v = self@;
        if index >= self.columns.len() {
            return ;
        }
        assert(v.columns[index as int] == self.columns@[index as int]@);
        if let Some(previous) = self.columns[index].boundary {
            let here = match self.boundary_columns.get(&previous) {
                Some(at) => *at == index,
                None => false,
            };
            if here {
                self.boundary_columns.remove(&previous);
            }
        }
        let column = &mut self.columns[index];
        column.set_boundary(boundary);
        if let Some(found) = boundary {
            self.boundary_columns.insert(found, index);
        }
        proof {
            let want = with_boundary(v, index as int, boundary);
            assert(self@.columns =~= want.columns);
            assert(self@ =~= want);
        }
    }

    /// The column at a gap.
    pub fn column_for_boundary(&self, boundary: ParserBoundaryId) -> (r: Option<usize>)
        requires
            self.wf(),
            column_total(self@) <= usize::MAX,
        ensures
            crate::framework::parse::parsing::segment::place(r) == boundary_column_of(
                self@,
                boundary,
            ),
    {
        if let Some(at) = self.boundary_columns.get(&boundary) {
            return Some(*at);
        }
        match &self.retained_suffix {
            Some(segment) => match segment.boundary_column(boundary) {
                Some(at) => {
                    proof {
                        lemma_last_place(
                            segment.view().columns,
                            |column: ColumnView| column.boundary == Some(boundary),
                        );
                    }
                    Some(self.columns.len() + at)
                },
                None => None,
            },
            None => None,
        }
    }

    /// The product of a token.
    pub fn token_product(&self, token: TokenOccurrenceId) -> (r: Option<ProductId>)
        requires
            self.wf(),
        ensures
            r == token_product_of(self@, token),
    {
        if let Some(product) = self.token_products.get(token.0) {
            return Some(*product);
        }
        match &self.retained_suffix {
            Some(segment) => segment.token_product(token),
            None => None,
        }
    }

    /// The column at a place.
    pub fn column_at(&self, index: usize) -> (r: Option<&ParseColumn>)
        ensures
            match r {
                Some(column) => column_of(self@, index as int) == Some(column@),
                None => column_of(self@, index as int) is None,
            },
    {
        if index < self.columns.len() {
            assert(self@.columns[index as int] == self.columns@[index as int]@);
            return Some(&self.columns[index]);
        }
        match &self.retained_suffix {
            Some(segment) => segment.column(index - self.columns.len()),
            None => None,
        }
    }

    /// Notes a diagnostic, unless it is known.
    pub fn note_diagnostic(&mut self, info: ParseErrorInfo)
        requires
            old(self).wf(),
        ensures
            final(self).wf(),
            final(self)@ == (SessionView {
                diagnostics: noted(old(self)@.diagnostics, info),
                ..old(self)@
            }),
            final(self).kept_from(*old(self)),
    {
        let mut at: usize = 0;
        while at < self.diagnostics.len()
            invariant
                *self == *old(self),
                self.wf(),
                at <= self.diagnostics@.len(),
                forall|i: int| 0 <= i < at ==> #[trigger] self.diagnostics@[i] != info,
            decreases self.diagnostics@.len() - at,
        {
            if self.diagnostics[at] == info {
                assert(self.diagnostics@[at as int] == info);
                return ;
            }
            at += 1;
        }
        self.diagnostics.push(info);
        assert(self@.columns =~= old(self)@.columns);
    }

    /// Adds a column.
    pub fn append_column(&mut self, column: ParseColumn)
        requires
            old(self).wf(),
        ensures
            final(self).wf(),
            final(self)@ == with_column(old(self)@, column@),
            final(self).kept_from(*old(self)),
    {
        let ghost v = self@;
        let ghost said = column@;
        let index: usize = self.columns.len();
        if let Some(boundary) = column.boundary {
            self.boundary_columns.insert(boundary, index);
        }
        if let Some(token) = column.token {
            self.token_columns.insert(token.0, index);
            if !column.error_derived && column.products.len() > 0 {
                self.token_products.insert(token.0, column.products[0]);
            }
        }
        let mut at: usize = 0;
        let ghost start = self.diagnostics@;
        let ghost frozen = *self;
        while at < column.diagnostics.len()
            invariant
                at <= column.diagnostics@.len(),
                start == v.diagnostics,
                self.diagnostics@ == all_noted(start, column.diagnostics@.take(at as int)),
                self.columns == frozen.columns,
                self.retained_suffix == frozen.retained_suffix,
                self.generation == frozen.generation,
                self.boundary_columns == frozen.boundary_columns,
                self.token_columns == frozen.token_columns,
                self.token_products == frozen.token_products,
                self.recovery == frozen.recovery,
                self.reductions == frozen.reductions,
                self.lineage == frozen.lineage,
            decreases column.diagnostics@.len() - at,
        {
            let info = column.diagnostics[at];
            let ghost known = column.diagnostics@.take(at as int);
            assert(column.diagnostics@.take(at as int + 1).drop_last() =~= known);
            let mut k: usize = 0;
            let mut fresh = true;
            while k < self.diagnostics.len()
                invariant_except_break
                    k <= self.diagnostics@.len(),
                    fresh,
                    forall|i: int| 0 <= i < k ==> #[trigger] self.diagnostics@[i] != info,
                ensures
                    fresh == !self.diagnostics@.contains(info),
                decreases self.diagnostics@.len() - k,
            {
                if self.diagnostics[k] == info {
                    assert(self.diagnostics@[k as int] == info);
                    fresh = false;
                    break;
                }
                k += 1;
            }
            if fresh {
                self.diagnostics.push(info);
            }
            at += 1;
        }
        assert(column.diagnostics@.take(at as int) =~= column.diagnostics@);
        self.columns.push(column);
        proof {
            let want = with_column(v, said);
            assert(self@.columns =~= v.columns.push(said));
            assert(self@ =~= want);
            assert forall|boundary: ParserBoundaryId| #[trigger]
                self@.boundaries.dom().contains(boundary) implies self@.boundaries[boundary]
                < self@.columns.len()
                && self@.columns[self@.boundaries[boundary] as int].boundary == Some(boundary) by {
                if !(said.boundary == Some(boundary)) {
                    assert(v.boundaries.dom().contains(boundary));
                }
            }
            assert forall|token: u64| #[trigger]
                self@.token_columns.dom().contains(token) implies self@.token_columns[token]
                < self@.columns.len() && self@.columns[self@.token_columns[token] as int].token
                == Some(TokenOccurrenceId(token)) by {
                if !(said.token == Some(TokenOccurrenceId(token))) {
                    assert(v.token_columns.dom().contains(token));
                }
            }
        }
    }

    /// Adds columns.
    pub fn append_columns(&mut self, columns: Vec<ParseColumn>)
        requires
            old(self).wf(),
        ensures
            final(self).wf(),
            final(self)@ == with_columns(old(self)@, column_views(columns@)),
            final(self).kept_from(*old(self)),
    {
        let ghost all = column_views(columns@);
        let mut at: usize = 0;
        while at < columns.len()
            invariant
                at <= columns@.len(),
                all == column_views(columns@),
                self.wf(),
                self@ == with_columns(old(self)@, all.take(at as int)),
                self.kept_from(*old(self)),
            decreases columns@.len() - at,
        {
            assert(all.take(at as int + 1).drop_last() =~= all.take(at as int));
            assert(all.take(at as int + 1).last() == columns@[at as int]@);
            self.append_column(columns[at].copied());
            at += 1;
        }
        assert(all.take(at as int) =~= all);
    }

    /// Makes the columns up to a place ready to change.
    pub fn ensure_prefix(&mut self, end: usize)
        requires
            old(self).wf(),
            end < usize::MAX,
        ensures
            final(self).wf(),
            final(self)@ == with_prefix(old(self)@, end as int),
            final(self).kept_from(*old(self)),
    {
        let ghost v = self@;
        let needed: usize = end + 1;
        let have: usize = self.columns.len();
        if needed <= have {
            return ;
        }
        let mut taken: Option<ParseSegment> = None;
        core::mem::swap(&mut taken, &mut self.retained_suffix);
        let existing = match taken {
            Some(segment) => segment,
            None => {
                return ;
            },
        };
        let total: usize = existing.len();
        let wanted: usize = needed - have;
        let take: usize = if wanted < total {
            wanted
        } else {
            total
        };
        let prefix = existing.slice(0, take).materialize();
        let rest = existing.slice(take, total);
        proof {
            assert(self@ =~= (SessionView { suffix: None, ..v }));
        }
        self.append_columns(prefix);
        let ghost grown = self@;
        if !rest.is_empty() {
            self.retained_suffix = Some(rest);
        }
        proof {
            lemma_with_columns_suffix(
                SessionView { suffix: None, ..v },
                existing.view().columns.subrange(0, take as int),
            );
            assert(self@ =~= with_prefix(v, end as int));
        }
    }

    /// Freezes all columns.
    pub fn seal(&mut self, gss: &GssArena, products: &ProductArena)
        requires
            old(self).wf(),
            gss.wf(),
            products.wf(),
        ensures
            final(self).wf(),
            final(self)@ == sealed_session(old(self)@, (gss@, products@)),
            final(self).kept_from(*old(self)),
    {
        let ghost v = self@;
        if self.columns.len() == 0 {
            return ;
        }
        let mut columns: Vec<ParseColumn> = Vec::new();
        core::mem::swap(&mut columns, &mut self.columns);
        let prefix = ParseSegment::from_columns(columns, gss, products);
        let mut taken: Option<ParseSegment> = None;
        core::mem::swap(&mut taken, &mut self.retained_suffix);
        let joined = match taken {
            Some(segment) => ParseSegment::concat(prefix, segment),
            None => prefix,
        };
        self.retained_suffix = Some(joined);
        self.boundary_columns = BucketMap::new();
        self.token_columns = RadixMap::new();
        self.token_products = RadixMap::new();
        assert(self@ =~= sealed_session(v, (gss@, products@)));
    }

    /// Puts a frozen run behind the columns.
    pub fn append_reused_segment(&mut self, segment: ParseSegment)
        requires
            old(self).wf(),
            old(self).retained_suffix is None,
            segment.wf(),
        ensures
            final(self).wf(),
            final(self)@ == (SessionView {
                suffix: if segment.view().columns.len() == 0 {
                    None
                } else {
                    Some(segment.view())
                },
                ..old(self)@
            }),
            final(self).kept_from(*old(self)),
    {
        if segment.is_empty() {
            return ;
        }
        self.retained_suffix = Some(segment);
    }

    /// To how many columns behind a place repairs led.
    pub fn recovery_columns_after(&self, start: usize) -> (r: usize)
        requires
            self.wf(),
            start < usize::MAX,
            column_total(self@) <= usize::MAX,
        ensures
            r == recovered_after(self@, start as int),
    {
        let ghost all = self@.columns;
        let total: usize = self.columns.len();
        let from: usize = if start + 1 < total {
            start + 1
        } else {
            total
        };
        let mut count: usize = 0;
        let mut at: usize = total;
        assert(all.skip(total as int) =~= Seq::<ColumnView>::empty());
        while at > from
            invariant
                from <= at <= total,
                total == all.len(),
                all == self@.columns,
                count == errors_in(all.skip(at as int)),
                count <= total - at,
            decreases at,
        {
            at -= 1;
            assert(all.skip(at as int).drop_first() =~= all.skip(at as int + 1));
            assert(all[at as int] == self.columns@[at as int]@);
            if self.columns[at].error_derived {
                count += 1;
            }
        }
        match &self.retained_suffix {
            Some(segment) => {
                let behind: usize = if start + 1 > total {
                    start + 1 - total
                } else {
                    0
                };
                let more: usize = segment.error_count_after(behind);
                proof {
                    if behind <= segment.view().columns.len() {
                        lemma_errors_bound(segment.view().columns.skip(behind as int));
                    }
                }
                count + more
            },
            None => count,
        }
    }

    /// Forgets the gaps and the tokens of columns from a place on.
    fn forget_columns(&mut self, end: usize)
        requires
            old(self).wf(),
            end <= old(self).columns@.len(),
        ensures
            final(self).columns == old(self).columns,
            final(self).retained_suffix == old(self).retained_suffix,
            final(self).generation == old(self).generation,
            final(self).diagnostics == old(self).diagnostics,
            final(self).token_products == old(self).token_products,
            final(self).kept_from(*old(self)),
            final(self).boundary_columns.wf(),
            final(self).token_columns.wf(),
            final(self).boundary_columns@ == below(old(self).boundary_columns@, end as int),
            final(self).token_columns@ == below(old(self).token_columns@, end as int),
    {
        let ghost v = self@;
        let total: usize = self.columns.len();
        let mut at: usize = end;
        assert(self.boundary_columns@ =~= v.boundaries);
        while at < total
            invariant
                end <= at <= total,
                total == self.columns@.len(),
                v == old(self)@,
                led_right(v),
                self.columns == old(self).columns,
                self.retained_suffix == old(self).retained_suffix,
                self.generation == old(self).generation,
                self.diagnostics == old(self).diagnostics,
                self.token_products == old(self).token_products,
                self.kept_from(*old(self)),
                self.boundary_columns.wf(),
                self.token_columns.wf(),
                forall|key: ParserBoundaryId| #[trigger]
                    self.boundary_columns@.dom().contains(key) <==> v.boundaries.dom().contains(key)
                        && (v.boundaries[key] < end || v.boundaries[key] >= at),
                forall|key: ParserBoundaryId| #[trigger]
                    self.boundary_columns@.dom().contains(key) ==> self.boundary_columns@[key]
                        == v.boundaries[key],
                forall|key: u64| #[trigger]
                    self.token_columns@.dom().contains(key) <==> v.token_columns.dom().contains(key)
                        && (v.token_columns[key] < end || v.token_columns[key] >= at),
                forall|key: u64| #[trigger]
                    self.token_columns@.dom().contains(key) ==> self.token_columns@[key]
                        == v.token_columns[key],
            decreases total - at,
        {
            assert(v.columns[at as int] == self.columns@[at as int]@);
            let ghost bound = self.boundary_columns@;
            let ghost tokens = self.token_columns@;
            if let Some(boundary) = self.columns[at].boundary {
                let here = match self.boundary_columns.get(&boundary) {
                    Some(found) => *found == at,
                    None => false,
                };
                if here {
                    self.boundary_columns.remove(&boundary);
                }
            }
            if let Some(token) = self.columns[at].token {
                let here = match self.token_columns.get(token.0) {
                    Some(found) => *found == at,
                    None => false,
                };
                if here {
                    self.token_columns.remove(token.0);
                }
            }
            proof {
                assert forall|key: ParserBoundaryId| #[trigger]
                    self.boundary_columns@.dom().contains(key) <==> v.boundaries.dom().contains(key)
                        && (v.boundaries[key] < end || v.boundaries[key] >= at + 1) by {
                    if bound.dom().contains(key) {
                        assert(v.boundaries.dom().contains(key));
                    }
                }
                assert forall|key: u64| #[trigger]
                    self.token_columns@.dom().contains(key) <==> v.token_columns.dom().contains(key)
                        && (v.token_columns[key] < end || v.token_columns[key] >= at + 1) by {
                    if tokens.dom().contains(key) {
                        assert(v.token_columns.dom().contains(key));
                    }
                }
            }
            at += 1;
        }
        proof {
            assert(self.boundary_columns@ =~= below(v.boundaries, end as int));
            assert(self.token_columns@ =~= below(v.token_columns, end as int));
        }
    }

    /// Forgets the products of tokens that are in no column and not in the
    /// given run before a place.
    fn forget_products(&mut self, run: &Option<ParseSegment>, columns: usize, start: usize)
        requires
            old(self).token_columns.wf(),
            old(self).token_products.wf(),
            columns + (match *run {
                Some(segment) => segment.view().columns.len(),
                None => 0,
            }) <= usize::MAX,
        ensures
            final(self).columns == old(self).columns,
            final(self).retained_suffix == old(self).retained_suffix,
            final(self).generation == old(self).generation,
            final(self).diagnostics == old(self).diagnostics,
            final(self).boundary_columns == old(self).boundary_columns,
            final(self).token_columns == old(self).token_columns,
            final(self).kept_from(*old(self)),
            final(self).token_products.wf(),
            final(self).token_products@ == old(self).token_products@.restrict(
                Set::new(
                    |token: u64|
                        old(self).token_columns@.dom().contains(token) || (match *run {
                            Some(segment) => token_before(
                                segment.view(),
                                columns as nat,
                                start as int,
                                token,
                            ),
                            None => false,
                        }),
                ),
            ),
    {
        let ghost products = self.token_products@;
        let ghost keys = self.token_products.spec_keys();
        let ghost keep = Set::new(
            |token: u64|
                old(self).token_columns@.dom().contains(token) || (match *run {
                    Some(segment) => token_before(
                        segment.view(),
                        columns as nat,
                        start as int,
                        token,
                    ),
                    None => false,
                }),
        );
        let total: usize = self.token_products.len();
        let mut kept: RadixMap<usize> = RadixMap::new();
        let mut at: usize = 0;
        while at < total
            invariant
                at <= total,
                *self == *old(self),
                self.token_columns.wf(),
                self.token_products.wf(),
                columns + (match *run {
                    Some(segment) => segment.view().columns.len(),
                    None => 0,
                }) <= usize::MAX,
                products == self.token_products@,
                keys == self.token_products.spec_keys(),
                total == keys.len(),
                keep == Set::new(
                    |token: u64|
                        old(self).token_columns@.dom().contains(token) || (match *run {
                            Some(segment) => token_before(
                                segment.view(),
                                columns as nat,
                                start as int,
                                token,
                            ),
                            None => false,
                        }),
                ),
                kept.wf(),
                forall|key: u64| #[trigger]
                    kept@.dom().contains(key) <==> keep.contains(key) && exists|k: int|
                        0 <= k < at && #[trigger] keys[k] == key,
                forall|key: u64| #[trigger]
                    kept@.dom().contains(key) ==> kept@[key] == products[key],
            decreases total - at,
        {
            let key: u64 = self.token_products.key_at(at);
            let product: usize = *self.token_products.value_at(at);
            let stays = if self.token_columns.contains(key) {
                true
            } else {
                match run {
                    Some(segment) => match segment.token_column(TokenOccurrenceId(key)) {
                        Some(found) => {
                            proof {
                                lemma_last_place(
                                    segment.view().columns,
                                    |column: ColumnView|
                                        column.token == Some(TokenOccurrenceId(key)),
                                );
                            }
                            columns + found < start
                        },
                        None => false,
                    },
                    None => false,
                }
            };
            assert(stays == keep.contains(key));
            let ghost before = kept@;
            if stays {
                kept.insert(key, product);
            }
            proof {
                assert(keys[at as int] == key);
                assert forall|other: u64| #[trigger]
                    kept@.dom().contains(other) <==> keep.contains(other) && exists|k: int|
                        0 <= k < at + 1 && #[trigger] keys[k] == other by {
                    assert(before.dom().contains(other) <==> keep.contains(other) && exists|k: int|
                        0 <= k < at && #[trigger] keys[k] == other);
                }
            }
            at += 1;
        }
        proof {
            self.token_products.lemma_keys();
            assert forall|key: u64|
                kept@.dom().contains(key) <==> products.restrict(keep).dom().contains(key) by {
                if products.dom().contains(key) {
                    assert(keys.contains(key));
                    let k = choose|k: int| 0 <= k < keys.len() && keys[k] == key;
                    assert(keys[k] == key);
                }
                if kept@.dom().contains(key) {
                    let k = choose|k: int| 0 <= k < at && #[trigger] keys[k] == key;
                    assert(keys.contains(keys[k]));
                }
            }
            assert(kept@ =~= products.restrict(keep));
        }
        self.token_products = kept;
    }

    /// Takes the state back to a column: what stands behind it is gone, and
    /// nothing is reduced in it.
    pub fn truncate_to_column(&mut self, column: usize)
        requires
            old(self).wf(),
            column < old(self).columns@.len(),
            old(self).generation < u32::MAX,
        ensures
            final(self).wf(),
            final(self)@ == truncated(old(self)@, column as int),
            final(self).kept_from(*old(self)),
    {
        let ghost v = self@;
        let count: usize = self.columns.len();
        self.forget_columns(column + 1);
        self.forget_products(&None, 0, 0);
        self.retained_suffix = None;
        self.generation = self.generation + 1;
        self.columns.truncate(column + 1);
        let last = &mut self.columns[column];
        last.reset_for_replay();
        let mut kept: Vec<ParseErrorInfo> = Vec::new();
        let mut at: usize = 0;
        let ghost stays = |info: ParseErrorInfo| located_below(info, column);
        let ghost all = self.diagnostics@;
        assert(all.take(0).filter(stays) =~= Seq::<ParseErrorInfo>::empty()) by {
            reveal(Seq::filter);
        }
        while at < self.diagnostics.len()
            invariant
                at <= self.diagnostics@.len(),
                all == self.diagnostics@,
                stays == (|info: ParseErrorInfo| located_below(info, column)),
                kept@ == all.take(at as int).filter(stays),
            decreases self.diagnostics@.len() - at,
        {
            let info = self.diagnostics[at];
            proof {
                let next = all.take(at as int + 1);
                assert(next.drop_last() =~= all.take(at as int));
                assert(next.last() == info);
                reveal(Seq::filter);
            }
            if let Some(location) = info.location {
                if location < column {
                    kept.push(info);
                }
            }
            at += 1;
        }
        assert(all.take(at as int) =~= all);
        self.diagnostics = kept;
        proof {
            let want = truncated(v, column as int);
            assert(self@.columns =~= want.columns);
            assert(self@.token_products =~= want.token_products);
            assert(self@ =~= want);
            assert forall|boundary: ParserBoundaryId| #[trigger]
                self@.boundaries.dom().contains(boundary) implies self@.boundaries[boundary]
                < self@.columns.len()
                && self@.columns[self@.boundaries[boundary] as int].boundary == Some(boundary) by {
                assert(v.boundaries.dom().contains(boundary));
            }
            assert forall|token: u64| #[trigger]
                self@.token_columns.dom().contains(token) implies self@.token_columns[token]
                < self@.columns.len() && self@.columns[self@.token_columns[token] as int].token
                == Some(TokenOccurrenceId(token)) by {
                assert(v.token_columns.dom().contains(token));
            }
        }
    }

    /// Cuts the columns off from a place on and freezes them.
    pub fn detach_suffix(&mut self, start: usize, gss: &GssArena, products: &ProductArena) -> (r:
        Option<ParseSegment>)
        requires
            old(self).wf(),
            gss.wf(),
            products.wf(),
            column_total(old(self)@) <= usize::MAX,
        ensures
            final(self).wf(),
            suffix_view(r) == detached_of(old(self)@, start as int, (gss@, products@)),
            r is Some ==> r->Some_0.wf(),
            final(self)@ == cut_session(old(self)@, start as int, (gss@, products@)),
            final(self).kept_from(*old(self)),
    {
        let ghost v = self@;
        let ghost g = (gss@, products@);
        let total: usize = self.column_count();
        let cut: usize = if start < total {
            start
        } else {
            total
        };
        let have: usize = self.columns.len();
        if cut >= have && self.retained_suffix.is_none() {
            return None;
        }
        let kept: usize = if cut < have {
            cut
        } else {
            have
        };
        self.forget_columns(kept);
        proof {
            assert forall|token: u64| #[trigger] v.token_columns.dom().contains(token) implies (
            v.token_columns[token] < kept <==> v.token_columns[token] < cut) by {}
            assert(below(v.token_columns, kept as int) =~= below(v.token_columns, cut as int));
        }
        let mut taken: Option<ParseSegment> = None;
        core::mem::swap(&mut taken, &mut self.retained_suffix);
        let run: ParseSegment = if cut < have {
            let tail = self.columns.split_off(cut);
            assert(column_views(tail@) =~= v.columns.subrange(cut as int, have as int));
            let prefix = ParseSegment::from_columns(tail, gss, products);
            match taken {
                Some(segment) => ParseSegment::concat(prefix, segment),
                None => prefix,
            }
        } else {
            match taken {
                Some(segment) => segment.slice(cut - have, segment.len()),
                None => {
                    return None;
                },
            }
        };
        let found = Some(run);
        proof {
            assert(suffix_view(found) == detached_of(v, start as int, g));
        }
        self.forget_products(&found, kept, cut);
        proof {
            let want = cut_session(v, start as int, g);
            assert(self@.columns =~= want.columns);
            assert(self@.token_products =~= want.token_products);
            assert(self@ =~= want);
            assert forall|boundary: ParserBoundaryId| #[trigger]
                self@.boundaries.dom().contains(boundary) implies self@.boundaries[boundary]
                < self@.columns.len()
                && self@.columns[self@.boundaries[boundary] as int].boundary == Some(boundary) by {
                assert(v.boundaries.dom().contains(boundary));
            }
            assert forall|token: u64| #[trigger]
                self@.token_columns.dom().contains(token) implies self@.token_columns[token]
                < self@.columns.len() && self@.columns[self@.token_columns[token] as int].token
                == Some(TokenOccurrenceId(token)) by {
                assert(v.token_columns.dom().contains(token));
            }
        }
        found
    }
}

/// A point to which the state can be taken back.
pub struct SessionMark {
    pub columns: usize,
    /// The last column at the mark.
    pub last: ParseColumn,
    pub diagnostics: usize,
    pub lineage: LineageMark,
    pub active_recovery_segment: Option<u64>,
    pub next_synthetic_ordinal: u64,
}

/// The state taken back to a mark.
pub open spec fn marked_again(v: SessionView, columns: int, last: ColumnView, diagnostics: int) -> SessionView {
    SessionView {
        columns: v.columns.take(columns - 1).push(last),
        diagnostics: if diagnostics <= v.diagnostics.len() {
            v.diagnostics.take(diagnostics)
        } else {
            v.diagnostics
        },
        boundaries: below(v.boundaries, columns),
        token_columns: below(v.token_columns, columns),
        ..v
    }
}

impl ParserSessionState {
    /// Marks the present state, to be taken back to it if a repair fails.
    pub fn mark(&self) -> (r: SessionMark)
        requires
            self.wf(),
            self.columns@.len() > 0,
        ensures
            r.columns == self.columns@.len(),
            r.last@ == self@.columns.last(),
            r.diagnostics == self@.diagnostics.len(),
            r.lineage.created_len == self.lineage@.created.len(),
            r.lineage.next_lineage == self.lineage@.next,
            r.active_recovery_segment == self.recovery.active_recovery_segment,
            r.next_synthetic_ordinal == self.recovery.next_synthetic_ordinal,
    {
        let total: usize = self.columns.len();
        assert(self@.columns[total - 1] == self.columns@[total - 1]@);
        SessionMark {
            columns: total,
            last: self.columns[total - 1].copied(),
            diagnostics: self.diagnostics.len(),
            lineage: self.lineage.mark(),
            active_recovery_segment: self.recovery.active_recovery_segment,
            next_synthetic_ordinal: self.recovery.next_synthetic_ordinal,
        }
    }

    /// Takes the state back to a mark: columns, diagnostics and identities that
    /// came since are gone.
    pub fn rollback_to(&mut self, mark: SessionMark)
        requires
            old(self).wf(),
            0 < mark.columns <= old(self).columns@.len(),
            mark.last@.token == old(self)@.columns[mark.columns - 1].token,
            mark.last@.boundary == old(self)@.columns[mark.columns - 1].boundary,
        ensures
            final(self).wf(),
            final(self)@ == marked_again(
                old(self)@,
                mark.columns as int,
                mark.last@,
                mark.diagnostics as int,
            ),
            final(self).lineage@ == if mark.lineage.created_len <= old(self).lineage@.created.len() {
                rolled_back(old(self).lineage@, mark.lineage)
            } else {
                old(self).lineage@
            },
            final(self).recovery@ == (RecoveryView {
                active: mark.active_recovery_segment,
                ordinal: mark.next_synthetic_ordinal,
                ..old(self).recovery@
            }),
            final(self).recovery.active_recovery_segment == mark.active_recovery_segment,
            final(self).recovery.next_synthetic_ordinal == mark.next_synthetic_ordinal,
            final(self).recovery.journal == old(self).recovery.journal,
            final(self).recovery.document_serial == old(self).recovery.document_serial,
            final(self).recovery.next_recovery_segment == old(self).recovery.next_recovery_segment,
            final(self).reductions == old(self).reductions,
            final(self).retained_suffix == old(self).retained_suffix,
    {
        let ghost v = self@;
        let ghost said = mark.last@;
        self.forget_columns(mark.columns);
        self.columns.truncate(mark.columns);
        self.columns.set(mark.columns - 1, mark.last);
        if mark.diagnostics <= self.diagnostics.len() {
            self.diagnostics.truncate(mark.diagnostics);
        }
        if mark.lineage.created_len <= self.lineage.mark().created_len {
            self.lineage.rollback(mark.lineage);
        }
        self.recovery.active_recovery_segment = mark.active_recovery_segment;
        self.recovery.next_synthetic_ordinal = mark.next_synthetic_ordinal;
        proof {
            let want = marked_again(v, mark.columns as int, said, mark.diagnostics as int);
            assert(self@.columns =~= want.columns);
            assert(self@.diagnostics =~= want.diagnostics);
            assert(self@ =~= want);
            assert forall|boundary: ParserBoundaryId| #[trigger]
                self@.boundaries.dom().contains(boundary) implies self@.boundaries[boundary]
                < self@.columns.len()
                && self@.columns[self@.boundaries[boundary] as int].boundary == Some(boundary) by {
                assert(v.boundaries.dom().contains(boundary));
            }
            assert forall|token: u64| #[trigger]
                self@.token_columns.dom().contains(token) implies self@.token_columns[token]
                < self@.columns.len() && self@.columns[self@.token_columns[token] as int].token
                == Some(TokenOccurrenceId(token)) by {
                assert(v.token_columns.dom().contains(token));
            }
        }
    }
}

/// Columns that are added leave the frozen run alone.
pub proof fn lemma_with_columns_suffix(v: SessionView, columns: Seq<ColumnView>)
    ensures
        with_columns(v, columns).suffix == v.suffix,
        with_columns(v, columns).generation == v.generation,
        with_columns(v, columns).columns == v.columns + columns,
    decreases columns.len(),
{
    if columns.len() > 0 {
        lemma_with_columns_suffix(v, columns.drop_last());
        assert(columns.drop_last().push(columns.last()) =~= columns);
        assert((v.columns + columns.drop_last()).push(columns.last()) =~= v.columns + columns);
    } else {
        assert(v.columns + columns =~= v.columns);
    }
}

/// Freezing all columns changes no column, neither in kind nor in number, nor
/// what is accepted.
pub proof fn lemma_sealing_keeps_columns(v: SessionView, g: (GssView, Seq<ProductView>), index: int)
    requires
        led_right(v),
    ensures
        column_total(sealed_session(v, g)) == column_total(v),
        column_of(sealed_session(v, g), index) == column_of(v, index),
        (v.suffix is Some ==> v.suffix->Some_0.columns.len() > 0) ==> accepted_of(
            sealed_session(v, g),
        ) == accepted_of(v),
{
    if v.columns.len() > 0 {
        let w = sealed_session(v, g);
        assert(w.columns.len() == 0);
        match v.suffix {
            Some(segment) => {
                let joined = joined_segments(segment_of(v.columns, g), segment);
                assert(joined.columns == v.columns + segment.columns);
            },
            None => {},
        }
    }
}

/// Taking frozen columns back to change them changes no column, neither in kind
/// nor in number, nor what is accepted.
pub proof fn lemma_prefix_keeps_columns(v: SessionView, end: int, index: int)
    requires
        end >= 0,
        v.suffix is Some ==> v.suffix->Some_0.columns.len() > 0
            && v.suffix->Some_0.frontiers.len() == v.suffix->Some_0.columns.len(),
    ensures
        column_total(with_prefix(v, end)) == column_total(v),
        column_of(with_prefix(v, end), index) == column_of(v, index),
{
    if let Some(segment) = v.suffix {
        if !(end + 1 <= v.columns.len() || v.columns.len() >= usize::MAX) {
            let wanted = end + 1 - v.columns.len();
            let take = if wanted < segment.columns.len() {
                wanted
            } else {
                segment.columns.len() as int
            };
            lemma_with_columns_suffix(
                SessionView { suffix: None, ..v },
                segment.columns.subrange(0, take),
            );
            let w = with_prefix(v, end);
            assert(w.columns == v.columns + segment.columns.subrange(0, take));
        }
    }
}

} // verus!
