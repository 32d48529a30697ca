//! What happens to the columns where a parse is cut, taken back, and joined with
//! what was set aside.

use vstd::prelude::*;

use crate::framework::lex::lexed::TokenOccurrenceId;
use crate::framework::parse::data::gss::GssView;
use crate::framework::parse::data::matching::{canonical_match, states_match};
use crate::framework::parse::data::product::{ProductId, ProductView};
use crate::framework::parse::parsing::columns::{
    checkpoint_of, checkpoints_match, reset_column, ColumnView,
};
use crate::framework::parse::parsing::restart::{restarted, set_aside};
use crate::framework::parse::parsing::reuse::{
    decided, decided_by_match, only_reduced, origin_boundary, rest_of, seam_attached, stand_ins,
    stands_in, with_run, DecisionView,
};
use crate::framework::parse::parsing::reductions::{key_of, KeyView};
use crate::framework::parse::parsing::segment::{
    boundary_place, errors_in, occurrence_of, SegmentView,
};
use crate::framework::parse::parsing::session::{
    boundary_column_of, column_of, column_total, cut_session, led_right,
    lemma_with_columns_suffix, marked_again, recovered_after, token_product_of, truncated,
    with_boundary, with_column, with_columns, SessionView,
};
use crate::framework::parse::parsing::stack::StackView;
use crate::framework::parse::types::ParserBoundaryId;

verus! {

/// A frozen run has a checkpoint for each of its columns.
pub open spec fn is_even_run(run: SegmentView) -> bool {
    run.frontiers.len() == run.columns.len()
}

/// The run behind the columns, where there is one, has a checkpoint for each of
/// its columns.
pub open spec fn suffix_even(v: SessionView) -> bool {
    match v.suffix {
        Some(run) => is_even_run(run),
        None => true,
    }
}

/// What is set aside from a column on is that column and all behind it, in
/// order, with their checkpoints.
pub proof fn lemma_rest_is_set_aside(v: SessionView, start: int, g: (GssView, Seq<ProductView>))
    requires
        0 <= start <= column_total(v),
        suffix_even(v),
    ensures
        set_aside(v, start, g).columns.len() == column_total(v) - start,
        is_even_run(set_aside(v, start, g)),
        forall|k: int|
            0 <= k < column_total(v) - start ==> Some(#[trigger] set_aside(v, start, g).columns[k])
                == column_of(v, start + k),
{
    let run = set_aside(v, start, g);
    let count = v.columns.len() as int;
    if start < count {
        let tail = v.columns.subrange(start, count);
        match v.suffix {
            Some(segment) => {
                assert(tail.len() == count - start);
                if segment.columns.len() == 0 {
                    assert(run.columns =~= tail);
                } else {
                    assert(run.columns =~= tail + segment.columns);
                }
            },
            None => {
                assert(run.columns =~= tail);
            },
        }
    } else {
        match v.suffix {
            Some(segment) => {
                assert(run.columns =~= segment.columns.subrange(
                    start - count,
                    segment.columns.len() as int,
                ));
            },
            None => {},
        }
    }
}

/// A cut keeps the columns before it.
pub proof fn lemma_cut_keeps_the_start(v: SessionView, start: int, g: (GssView, Seq<ProductView>))
    requires
        0 <= start <= v.columns.len(),
    ensures
        v.columns.len() > 0 || v.suffix is Some ==> cut_session(v, start, g).columns
            == v.columns.take(start),
        cut_session(v, start, g).suffix is None,
        cut_session(v, start, g).diagnostics == v.diagnostics,
        cut_session(v, start, g).generation == v.generation,
{
    assert(v.columns.take(v.columns.len() as int) =~= v.columns);
}

/// A parse that is taken back to a column has the columns before it as they were,
/// and that column as it was before anything was reduced in it. Diagnostics of
/// earlier columns stay, and no others. Names still lead to what bears them.
pub proof fn lemma_taken_back_to_a_column(v: SessionView, column: int)
    requires
        0 <= column < v.columns.len() <= usize::MAX,
        v.generation < u32::MAX,
    ensures
        ({
            let w = truncated(v, column);
            let last = w.columns[column];
            &&& w.columns.len() == column + 1
            &&& w.suffix is None
            &&& w.generation == v.generation + 1
            &&& forall|i: int| 0 <= i < column ==> #[trigger] w.columns[i] == v.columns[i]
            &&& last.token == v.columns[column].token
            &&& last.boundary == v.columns[column].boundary
            &&& last.base == v.columns[column].base
            &&& last.active == v.columns[column].base
            &&& last.accepted.len() == 0
            &&& last.products.len() == 0
            &&& last.diagnostics.len() == 0
            &&& !last.error_derived
            &&& forall|k: int|
                0 <= k < w.diagnostics.len() ==> v.diagnostics.contains(
                    #[trigger] w.diagnostics[k],
                ) && w.diagnostics[k].location is Some && w.diagnostics[k].location->Some_0
                    < column
            &&& forall|k: int|
                0 <= k < v.diagnostics.len() && (#[trigger] v.diagnostics[k]).location is Some
                    && v.diagnostics[k].location->Some_0 < column ==> w.diagnostics.contains(
                    v.diagnostics[k],
                )
            &&& forall|boundary: ParserBoundaryId| #[trigger]
                v.boundaries.dom().contains(boundary) && v.boundaries[boundary] <= column
                    ==> w.boundaries.dom().contains(boundary) && w.boundaries[boundary]
                    == v.boundaries[boundary]
            &&& forall|token: u64| #[trigger]
                v.token_columns.dom().contains(token) && v.token_columns[token] <= column
                    ==> w.token_columns.dom().contains(token) && w.token_columns[token]
                    == v.token_columns[token]
            &&& led_right(v) ==> led_right(w)
        }),
{
    let w = truncated(v, column);
    let keeps = |info: crate::framework::parse::data::green::ParseErrorInfo|
        crate::framework::parse::parsing::session::located_below(info, column as usize);
    assert(w.diagnostics == v.diagnostics.filter(keeps));
    assert forall|k: int| 0 <= k < w.diagnostics.len() implies v.diagnostics.contains(
        #[trigger] w.diagnostics[k],
    ) && w.diagnostics[k].location is Some && w.diagnostics[k].location->Some_0 < column by {
        v.diagnostics.lemma_filter_contains_rev(keeps, w.diagnostics[k]);
        v.diagnostics.lemma_filter_pred(keeps, k);
    }
    assert forall|k: int|
        0 <= k < v.diagnostics.len() && (#[trigger] v.diagnostics[k]).location is Some
            && v.diagnostics[k].location->Some_0 < column implies w.diagnostics.contains(
        v.diagnostics[k],
    ) by {
        v.diagnostics.lemma_filter_contains(keeps, k);
    }
}

/// Where reading starts again at a column, the columns before it are as they
/// were, and it is as it was before anything was reduced in it.
pub proof fn lemma_restart_keeps_the_start(
    v: SessionView,
    base: int,
    column: int,
    g: (GssView, Seq<ProductView>),
)
    requires
        0 <= base <= column_total(v),
        0 <= column < v.columns.len() <= usize::MAX,
        suffix_even(v),
    ensures
        restarted(v, base, column, g).columns.len() == column + 1,
        restarted(v, base, column, g).columns.take(column) == v.columns.take(column),
        restarted(v, base, column, g).columns[column] == reset_column(v.columns[column]),
        restarted(v, base, column, g).suffix is None,
{
    let run = set_aside(v, base, g);
    let cut = cut_session(v, base, g);
    let keep = column - base + 1;
    lemma_rest_is_set_aside(v, base, g);
    if base <= column {
        lemma_cut_keeps_the_start(v, base, g);
        let part = run.columns.take(
            if keep < run.columns.len() {
                keep
            } else {
                run.columns.len() as int
            },
        );
        lemma_with_columns_suffix(cut, part);
        let grown = with_columns(cut, part);
        assert(grown.columns == v.columns.take(base) + part);
        assert(part.len() == keep);
        assert forall|i: int| 0 <= i <= column implies #[trigger] grown.columns[i]
            == v.columns[i] by {
            if i >= base {
                assert(Some(run.columns[i - base]) == column_of(v, base + (i - base)));
            }
        }
        assert(grown.columns.take(column) =~= v.columns.take(column));
        assert(grown.columns[column] == v.columns[column]);
    } else {
        assert(cut.columns.len() > column && cut.columns.take(column) =~= v.columns.take(column)
            && cut.columns[column] == v.columns[column]);
    }
    let w = restarted(v, base, column, g);
    assert(w.columns.take(column) =~= v.columns.take(column));
}

/// A run that is taken over stands behind the columns from its next column on,
/// and nothing of it is lost.
pub proof fn lemma_run_stands_behind(v: StackView, run: SegmentView, at: int, k: int)
    requires
        0 <= at < run.columns.len(),
    ensures
        ({
            let w = with_run(v, rest_of(run, at)).session;
            let count = v.session.columns.len() as int;
            &&& w.columns == v.session.columns
            &&& column_total(w) == count + run.columns.len() - at - 1
            &&& 0 <= k < run.columns.len() - at - 1 ==> column_of(w, count + k) == Some(
                run.columns[at + 1 + k],
            )
        }),
{
}

/// A run that is taken over with products in the place of its own has the same
/// columns, accepts a product in the place of each that it accepted, and takes
/// the place of a product that was found to have another one from that.
pub proof fn lemma_seam_keeps_the_columns(
    v: StackView,
    mid: StackView,
    w: StackView,
    run: SegmentView,
    at: int,
    products: Map<usize, usize>,
    map: Map<usize, usize>,
    k: int,
)
    requires
        0 <= at < run.columns.len() - 1,
        seam_attached(v, mid, w, run, at, products, map),
    ensures
        w.session.columns == v.session.columns,
        w.gss == v.gss,
        column_total(w.session) == v.session.columns.len() + run.columns.len() - at - 1,
        0 <= k < run.columns.len() - at - 1 ==> column_of(
            w.session,
            v.session.columns.len() + k,
        ) == Some(run.columns[at + 1 + k]),
        ({
            let behind = w.session.suffix->Some_0;
            &&& behind.accepted.len() == run.raw_accepted.len()
            &&& forall|i: int|
                0 <= i < run.raw_accepted.len() && products.dom().contains(
                    #[trigger] run.raw_accepted[i],
                ) ==> behind.accepted[i] == products[run.raw_accepted[i]]
        }),
{
    assert(only_reduced(v, mid));
    let behind = w.session.suffix->Some_0;
    assert(rest_of(run, at).raw_accepted == run.raw_accepted);
    assert forall|i: int|
        0 <= i < run.raw_accepted.len() && products.dom().contains(
            #[trigger] run.raw_accepted[i],
        ) implies behind.accepted[i] == products[run.raw_accepted[i]] by {
        assert(map.dom().contains(run.raw_accepted[i]));
        assert(behind.accepted[i] == map[run.raw_accepted[i]]);
    }
}

/// Where the old column at a gap has the same stacks, in the same states, with
/// the same say on errors, its run is not passed by.
pub proof fn lemma_same_states_are_reused(
    v: StackView,
    run: SegmentView,
    column: int,
    boundary: ParserBoundaryId,
    decision: DecisionView,
    at: int,
)
    requires
        decided(v, run, column, boundary, decision),
        boundary_place(run.columns, boundary) == Some(at),
        run.frontiers[at].anchor == v.session.columns[column].boundary,
        run.frontiers[at].error_derived == v.session.columns[column].error_derived,
        states_match(
            (v.gss, v.products, v.trees),
            run.columns[at].active,
            v.session.columns[column].active,
        ),
    ensures
        !(decision is No),
        decision is Verbatim ==> decision->Verbatim_old_index == at,
        decision is Seam ==> decision->Seam_old_index == at,
{
    let current = v.session.columns[column];
    let old = run.columns[at];
    let g = (v.gss, v.products);
    let now = checkpoint_of(current, g);
    if checkpoints_match(now, run.frontiers[at]) {
        let found = choose|found: Option<(Map<usize, usize>, Map<usize, usize>, bool)>|
            #[trigger] canonical_match(
                g,
                (old.base, old.active),
                (current.base, current.active),
                found,
            ) && decided_by_match(v, old, current, at, run.stable, found, decision);
        assert(decided_by_match(v, old, current, at, run.stable, found, decision));
    }
}

/// A run is taken over only where the old parse had the gap, and behind the
/// column at it: with another anchor, or where only one of the two stems from an
/// error, it is not.
pub proof fn lemma_other_gaps_are_not_reused(
    v: StackView,
    run: SegmentView,
    column: int,
    boundary: ParserBoundaryId,
    decision: DecisionView,
)
    requires
        decided(v, run, column, boundary, decision),
        !(decision is No),
    ensures
        ({
            let at = match decision {
                DecisionView::Verbatim { old_index } => old_index,
                DecisionView::Seam { old_index, .. } => old_index,
                DecisionView::No { .. } => -1,
            };
            &&& boundary_place(run.columns, boundary) == Some(at)
            &&& run.frontiers[at].anchor == v.session.columns[column].boundary
            &&& run.frontiers[at].error_derived == v.session.columns[column].error_derived
        }),
{
}

/// A column is found by the gap that it was named for, and by no other than
/// before; the names still lead to what bears them.
pub proof fn lemma_named_column_is_found(v: SessionView, index: int, boundary: ParserBoundaryId)
    requires
        0 <= index < v.columns.len() <= usize::MAX,
        led_right(v),
    ensures
        ({
            let w = with_boundary(v, index, Some(boundary));
            &&& boundary_column_of(w, boundary) == Some(index)
            &&& led_right(w)
            &&& w.columns.len() == v.columns.len()
            &&& w.columns[index].boundary == Some(boundary)
            &&& w.columns[index].active == v.columns[index].active
            &&& forall|i: int|
                0 <= i < v.columns.len() && i != index ==> #[trigger] w.columns[i]
                    == v.columns[i]
            &&& forall|other: ParserBoundaryId|
                other != boundary && #[trigger] v.boundaries.dom().contains(other)
                    && v.boundaries[other] != index ==> w.boundaries.dom().contains(other)
                    && w.boundaries[other] == v.boundaries[other]
        }),
{
    let w = with_boundary(v, index, Some(boundary));
    assert forall|other: ParserBoundaryId| #[trigger] w.boundaries.dom().contains(
        other,
    ) implies w.boundaries[other] < w.columns.len()
        && w.columns[w.boundaries[other] as int].boundary == Some(other) by {
        if other != boundary {
            assert(v.boundaries.dom().contains(other));
        }
    }
    assert forall|token: u64| #[trigger] w.token_columns.dom().contains(
        token,
    ) implies w.token_columns[token] < w.columns.len()
        && w.columns[w.token_columns[token] as int].token
        == Some(TokenOccurrenceId(token)) by {
        assert(v.token_columns.dom().contains(token));
    }
}

/// Whatever columns and diagnostics came since a mark, and whatever happened to
/// the last column, a parse that is taken back to the mark has the columns and
/// diagnostics of then.
pub proof fn lemma_taken_back_to_a_mark(v: SessionView, w: SessionView)
    requires
        v.columns.len() > 0,
        w.columns.len() >= v.columns.len(),
        forall|i: int| 0 <= i < v.columns.len() - 1 ==> #[trigger] w.columns[i] == v.columns[i],
        v.diagnostics.is_prefix_of(w.diagnostics),
    ensures
        ({
            let back = marked_again(
                w,
                v.columns.len() as int,
                v.columns.last(),
                v.diagnostics.len() as int,
            );
            &&& back.columns == v.columns
            &&& back.diagnostics == v.diagnostics
            &&& forall|token: u64| #[trigger]
                back.token_columns.dom().contains(token) ==> back.token_columns[token]
                    < v.columns.len()
            &&& forall|boundary: ParserBoundaryId| #[trigger]
                back.boundaries.dom().contains(boundary) ==> back.boundaries[boundary]
                    < v.columns.len()
        }),
{
    let back = marked_again(
        w,
        v.columns.len() as int,
        v.columns.last(),
        v.diagnostics.len() as int,
    );
    assert(back.columns =~= v.columns);
    assert(back.diagnostics =~= v.diagnostics);
}

/// What stands in for a token is the product that the token has now, an error
/// stays, and a reduction is made again of what stands in for its parts.
pub proof fn lemma_stand_ins_are_made_alike(
    v: StackView,
    run: SegmentView,
    map: Map<usize, usize>,
    id: ProductId,
)
    requires
        stands_in(v, run, map, id),
    ensures
        id < v.products.len(),
        v.products[id as int].data is Error ==> map[id] == id,
        v.products[id as int].data is Token ==> match occurrence_of(run, id) {
            Some(token) => match token_product_of(v.session, token) {
                Some(now) => map[id] == now,
                None => map[id] == id,
            },
            None => map[id] == id,
        },
        v.products[id as int].data is Node ==> {
            let origin = v.reductions.origins[id as u64];
            exists|key: KeyView| #[trigger]
                v.reductions.products.dom().contains(key) && v.reductions.products[key] == map[id]
                    && key.production == origin.production && key.children.len()
                    == origin.children.len() && forall|i: int|
                    0 <= i < origin.children.len() ==> #[trigger] key.children[i]
                        == map[origin.children[i]]
        },
{
    if v.products[id as int].data is Node {
        let origin = v.reductions.origins[id as u64];
        let key = key_of(
            origin.production,
            stand_ins(map, origin.children),
            origin_boundary(origin),
        );
        assert(v.reductions.products.dom().contains(key));
    }
}

/// A column that comes is found by its token and by its gap, and unless a repair
/// led to it, its token has its first product. Names still lead to what bears
/// them.
pub proof fn lemma_new_column_is_found(v: SessionView, column: ColumnView)
    requires
        v.columns.len() < usize::MAX,
        led_right(v),
    ensures
        ({
            let w = with_column(v, column);
            let index = v.columns.len() as int;
            &&& w.columns == v.columns.push(column)
            &&& led_right(w)
            &&& column.boundary matches Some(boundary) ==> boundary_column_of(w, boundary)
                == Some(index)
            &&& column.token matches Some(token) ==> {
                &&& w.token_columns.dom().contains(token.0)
                &&& w.token_columns[token.0] == index
                &&& !column.error_derived && column.products.len() > 0 ==> token_product_of(
                    w,
                    token,
                ) == Some(column.products[0])
            }
        }),
{
    let w = with_column(v, column);
    let index = v.columns.len() as int;
    assert forall|boundary: ParserBoundaryId| #[trigger] w.boundaries.dom().contains(
        boundary,
    ) implies w.boundaries[boundary] < w.columns.len()
        && w.columns[w.boundaries[boundary] as int].boundary == Some(boundary) by {
        if column.boundary != Some(boundary) {
            assert(v.boundaries.dom().contains(boundary));
        }
    }
    assert forall|token: u64| #[trigger] w.token_columns.dom().contains(
        token,
    ) implies w.token_columns[token] < w.columns.len()
        && w.columns[w.token_columns[token] as int].token == Some(TokenOccurrenceId(token)) by {
        if column.token != Some(TokenOccurrenceId(token)) {
            assert(v.token_columns.dom().contains(token));
        }
    }
}

proof fn lemma_errors_join(a: Seq<ColumnView>, b: Seq<ColumnView>)
    ensures
        errors_in(a + b) == errors_in(a) + errors_in(b),
    decreases a.len(),
{
    if a.len() == 0 {
        assert(a + b =~= b);
    } else {
        lemma_errors_join(a.drop_first(), b);
        assert((a + b).drop_first() =~= a.drop_first() + b);
        assert((a + b)[0] == a[0]);
    }
}

/// The columns that repairs led to are counted, each once.
pub proof fn lemma_mended_columns_are_counted(columns: Seq<ColumnView>)
    ensures
        errors_in(columns) == columns.filter(|column: ColumnView| column.error_derived).len(),
    decreases columns.len(),
{
    let mended = |column: ColumnView| column.error_derived;
    reveal(Seq::filter);
    if columns.len() > 0 {
        let rest = columns.drop_last();
        let last = columns.last();
        lemma_mended_columns_are_counted(rest);
        assert(columns =~= rest + seq![last]);
        lemma_errors_join(rest, seq![last]);
        assert(seq![last].drop_first() =~= Seq::<ColumnView>::empty());
        assert(errors_in(seq![last].drop_first()) == 0);
        assert(seq![last][0] == last);
        assert(mended(last) == last.error_derived);
    }
}

/// What is counted behind a place is counted over all columns behind it, frozen
/// or not.
pub proof fn lemma_mended_columns_behind_a_place(v: SessionView, start: int)
    requires
        0 <= start < column_total(v),
    ensures
        recovered_after(v, start) == errors_in(
            (v.columns + match v.suffix {
                Some(run) => run.columns,
                None => Seq::empty(),
            }).skip(start + 1),
        ),
{
    let count = v.columns.len() as int;
    match v.suffix {
        Some(run) => {
            let all = v.columns + run.columns;
            if start + 1 < count {
                lemma_errors_join(v.columns.skip(start + 1), run.columns);
                assert(all.skip(start + 1) =~= v.columns.skip(start + 1) + run.columns);
                assert(run.columns.skip(0) =~= run.columns);
            } else {
                assert(v.columns.skip(count) =~= Seq::<ColumnView>::empty());
                assert(all.skip(start + 1) =~= run.columns.skip(start + 1 - count));
            }
        },
        None => {
            let all = v.columns + Seq::<ColumnView>::empty();
            assert(all =~= v.columns);
        },
    }
}

} // verus!
