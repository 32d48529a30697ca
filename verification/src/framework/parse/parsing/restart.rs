//! Where reading again starts, and what is set aside for it.

use vstd::prelude::*;

use crate::framework::parse::data::gss::GssView;
use crate::framework::parse::data::product::ProductView;
use crate::framework::parse::parsing::columns::{column_views, ColumnView, ParseColumn};
use crate::framework::parse::parsing::error::{BuildError, ParseError};
use crate::framework::parse::parsing::segment::{
    joined_segments, lemma_last_place, segment_of, ParseSegment, SegmentView,
};
use crate::framework::parse::parsing::session::{
    boundary_column_of, column_of, column_total, cut_session, detached_of,
    lemma_with_columns_suffix, truncated, with_columns, with_prefix, SessionView,
};
use crate::framework::parse::parsing::stack::SessionContext;
use crate::framework::parse::tables::Parser;
use crate::framework::parse::tokens::{boundary_at, old_view, ReplayPlan, TokensView};
use crate::framework::parse::types::ParserBoundaryId;

verus! {

/// The column at the last gap, up to a rank, that has one; else the first
/// column.
pub open spec fn restart_from(v: SessionView, old: TokensView, rank: int) -> int
    decreases rank + 1,
{
    if rank < 0 {
        0
    } else {
        match boundary_column_of(v, boundary_at(old, rank)) {
            Some(column) => column,
            None => restart_from(v, old, rank - 1),
        }
    }
}

/// The last column, up to a place, to which no repair led; else the first one.
pub open spec fn clean_from(v: SessionView, column: int) -> int
    decreases column + 1,
{
    if column < 0 {
        0
    } else {
        match column_of(v, column) {
            Some(found) => if found.error_derived {
                clean_from(v, column - 1)
            } else {
                column
            },
            None => clean_from(v, column - 1),
        }
    }
}

/// The column at which reading starts again.
pub open spec fn restart_column(v: SessionView, old: Option<TokensView>, rank: int) -> int {
    clean_from(
        v,
        match old {
            Some(old) => restart_from(v, old, rank),
            None => 0,
        },
    )
}

/// The column from which on the old columns are set aside.
pub open spec fn reuse_base(v: SessionView, new: TokensView, plan: ReplayPlan<'_>) -> int {
    if plan.suffix_len > 0 {
        match boundary_column_of(v, boundary_at(new, plan.new_reuse_start as int)) {
            Some(column) => column,
            None => column_total(v) as int,
        }
    } else {
        column_total(v) as int
    }
}

/// The old columns that are set aside.
pub open spec fn set_aside(v: SessionView, base: int, g: (GssView, Seq<ProductView>)) -> SegmentView {
    match detached_of(v, base, g) {
        Some(run) => run,
        None => segment_of(Seq::empty(), g),
    }
}

/// The state from which reading starts again at a column.
pub open spec fn restarted(v: SessionView, base: int, column: int, g: (GssView, Seq<ProductView>)) -> SessionView {
    let run = set_aside(v, base, g);
    let cut = cut_session(v, base, g);
    let keep = column - base + 1;
    truncated(
        if base <= column {
            with_columns(
                cut,
                run.columns.take(
                    if keep < run.columns.len() {
                        keep
                    } else {
                        run.columns.len() as int
                    },
                ),
            )
        } else {
            cut
        },
        column,
    )
}

/// Where reading starts again, and the old columns that were set aside.
pub struct Restart {
    pub column: usize,
    pub base: usize,
    pub run: ParseSegment,
}

/// What was set up for reading again.
pub open spec fn set_up(
    v: SessionView,
    w: SessionView,
    g: (GssView, Seq<ProductView>),
    plan: ReplayPlan<'_>,
    rank: int,
    restart: Restart,
) -> bool {
    let column = restart_column(v, old_view(plan.old), rank);
    let ready = with_prefix(v, column);
    let base = reuse_base(ready, plan.new@, plan);
    &&& restart.column == column
    &&& restart.base == base
    &&& restart.run.view() == set_aside(ready, base, g)
    &&& w == restarted(ready, base, column, g)
}

proof fn lemma_restart_from(v: SessionView, old: TokensView, rank: int)
    requires
        crate::framework::parse::parsing::session::led_right(v),
        column_total(v) > 0,
    ensures
        0 <= restart_from(v, old, rank) < column_total(v),
    decreases rank + 1,
{
    if rank >= 0 {
        let boundary = boundary_at(old, rank);
        match boundary_column_of(v, boundary) {
            Some(_) => {
                if !v.boundaries.dom().contains(boundary) {
                    lemma_last_place(
                        v.suffix->Some_0.columns,
                        |column: ColumnView| column.boundary == Some(boundary),
                    );
                }
            },
            None => {
                lemma_restart_from(v, old, rank - 1);
            },
        }
    }
}

proof fn lemma_clean_from(v: SessionView, column: int)
    requires
        column < column_total(v),
        column_total(v) > 0,
    ensures
        0 <= clean_from(v, column) < column_total(v),
        column >= 0 ==> clean_from(v, column) <= column,
    decreases column + 1,
{
    if column >= 0 {
        lemma_clean_from(v, column - 1);
    }
}

/// The state is ready up to a column that it has, and the number of columns is
/// what it was.
proof fn lemma_with_prefix(v: SessionView, column: int)
    requires
        0 <= column < column_total(v),
        column_total(v) <= usize::MAX,
    ensures
        with_prefix(v, column).columns.len() > column,
        column_total(with_prefix(v, column)) == column_total(v),
{
    if let Some(segment) = v.suffix {
        if column + 1 > v.columns.len() && v.columns.len() < usize::MAX {
            let wanted = column + 1 - v.columns.len();
            let take = if wanted < segment.columns.len() {
                wanted
            } else {
                segment.columns.len() as int
            };
            lemma_with_columns_suffix(
                SessionView { suffix: None, ..v },
                segment.columns.subrange(0, take),
            );
        }
    }
}

/// A cut takes nothing away and makes nothing up.
proof fn lemma_cut(v: SessionView, base: int, g: (GssView, Seq<ProductView>))
    requires
        0 <= base,
    ensures
        ({
            let total = column_total(v);
            let cut = if base < total {
                base
            } else {
                total as int
            };
            let kept = if cut < v.columns.len() {
                cut
            } else {
                v.columns.len() as int
            };
            &&& cut_session(v, base, g).columns == v.columns.take(kept)
            &&& cut_session(v, base, g).suffix is None
            &&& cut_session(v, base, g).generation == v.generation
            &&& set_aside(v, base, g).columns.len() == total - cut
        }),
{
    let total = column_total(v);
    let cut = if base < total {
        base
    } else {
        total as int
    };
    if cut < v.columns.len() {
        let tail = segment_of(v.columns.subrange(cut, v.columns.len() as int), g);
        if let Some(segment) = v.suffix {
            assert(joined_segments(tail, segment).columns.len() == tail.columns.len()
                + segment.columns.len());
        }
    } else if v.suffix is None {
        assert(v.columns.take(v.columns.len() as int) =~= v.columns);
    }
}

impl<V> SessionContext<V> {
    /// The column at which reading starts again.
    fn find_restart(&self, parser: &Parser, plan: &ReplayPlan<'_>, rank: usize) -> (r: usize)
        requires
            self.wf(*parser),
            0 < column_total(self@.session) <= usize::MAX,
        ensures
            r == restart_column(self@.session, old_view(plan.old), rank as int),
            r < column_total(self@.session),
    {
        let ghost v = self@.session;
        let mut column: usize = 0;
        if let Some(old) = plan.old {
            let mut at: usize = rank;
            loop
                invariant_except_break
                    column == 0,
                invariant
                    v == self@.session,
                    self.wf(*parser),
                    0 < column_total(self@.session) <= usize::MAX,
                    restart_from(v, old@, rank as int) == restart_from(v, old@, at as int),
                ensures
                    column == restart_from(v, old@, rank as int),
                decreases at,
            {
                let boundary = ParserBoundaryId::Source(old.boundary_at_rank(at));
                match self.state.column_for_boundary(boundary) {
                    Some(found) => {
                        column = found;
                        break;
                    },
                    None => {},
                }
                if at == 0 {
                    assert(restart_from(v, old@, -1) == 0);
                    break;
                }
                at -= 1;
            }
            proof {
                lemma_restart_from(v, old@, rank as int);
            }
        }
        let ghost first = column as int;
        loop
            invariant
                v == self@.session,
                column < column_total(v),
                first < column_total(v),
                clean_from(v, first) == clean_from(v, column as int),
            ensures
                column == clean_from(v, first),
                column < column_total(v),
            decreases column,
        {
            let clean = match self.state.column_at(column) {
                Some(found) => !found.error_derived,
                None => false,
            };
            if clean {
                break;
            }
            if column == 0 {
                assert(clean_from(v, -1) == 0);
                break;
            }
            column -= 1;
        }
        column
    }

    /// Finds where reading starts again, sets the old columns aside, and takes
    /// the state back.
    pub fn prepare_restart(&mut self, parser: &Parser, plan: &ReplayPlan<'_>, rank: usize) -> (r:
        Result<Restart, ParseError>)
        requires
            old(self).wf(*parser),
            0 < column_total(old(self)@.session) <= usize::MAX,
        ensures
            final(self).wf(*parser),
            final(self).arenas == old(self).arenas,
            final(self).state.kept_from(old(self).state),
            match r {
                Ok(restart) => {
                    &&& set_up(
                        old(self)@.session,
                        final(self)@.session,
                        (old(self)@.gss, old(self)@.products),
                        *plan,
                        rank as int,
                        restart,
                    )
                    &&& final(self).at_work()
                    &&& final(self)@.session.columns.len() == restart.column + 1
                    &&& restart.run.wf()
                    &&& restart.base + restart.run.view().columns.len() <= usize::MAX
                    &&& old(self)@.session.generation < u32::MAX
                },
                Err(error) => error == ParseError::Build(BuildError::Exhausted) && old(
                    self,
                )@.session.generation == u32::MAX,
            },
    {
        let ghost v = self@.session;
        let ghost g = (self@.gss, self@.products);
        if self.state.generation == u32::MAX {
            return Err(ParseError::Build(BuildError::Exhausted));
        }
        let column: usize = self.find_restart(parser, plan, rank);
        self.state.ensure_prefix(column);
        let ghost ready = self@.session;
        proof {
            lemma_with_prefix(v, column as int);
            if let Some(segment) = v.suffix {
                lemma_with_columns_suffix(
                    SessionView { suffix: None, ..v },
                    segment.columns.subrange(
                        0,
                        if column + 1 - v.columns.len() < segment.columns.len() {
                            column + 1 - v.columns.len()
                        } else {
                            segment.columns.len() as int
                        },
                    ),
                );
            }
        }
        let base: usize = if plan.suffix_len > 0 {
            let boundary = ParserBoundaryId::Source(
                plan.new.boundary_at_rank(plan.new_reuse_start),
            );
            match self.state.column_for_boundary(boundary) {
                Some(found) => found,
                None => self.state.column_count(),
            }
        } else {
            self.state.column_count()
        };
        proof {
            lemma_cut(ready, base as int, g);
            if plan.suffix_len > 0 {
                let boundary = boundary_at(plan.new@, plan.new_reuse_start as int);
                if !ready.boundaries.dom().contains(boundary) && ready.suffix is Some {
                    lemma_last_place(
                        ready.suffix->Some_0.columns,
                        |column: ColumnView| column.boundary == Some(boundary),
                    );
                }
            }
            assert(base <= column_total(ready));
        }
        let run = match self.state.detach_suffix(base, &self.arenas.gss, &self.arenas.products) {
            Some(run) => run,
            None => {
                let none: Vec<ParseColumn> = Vec::new();
                assert(column_views(none@) =~= Seq::<ColumnView>::empty());
                ParseSegment::from_columns(none, &self.arenas.gss, &self.arenas.products)
            },
        };
        assert(run.view() == set_aside(ready, base as int, g));
        let ghost cut = self@.session;
        if base <= column {
            let wanted: usize = column - base + 1;
            let have: usize = run.len();
            let keep: usize = if wanted < have {
                wanted
            } else {
                have
            };
            let overlap = run.slice(0, keep).materialize();
            proof {
                assert(run.view().columns.subrange(0, keep as int) =~= run.view().columns.take(
                    keep as int,
                ));
                lemma_with_columns_suffix(cut, run.view().columns.take(keep as int));
            }
            self.state.append_columns(overlap);
        }
        assert(self@.session.columns.len() == self.state.columns@.len());
        assert(column < self.state.columns@.len());
        self.state.truncate_to_column(column);
        assert(self@.session.columns.len() == self.state.columns@.len());
        Ok(Restart { column, base, run })
    }
}

} // verus!
