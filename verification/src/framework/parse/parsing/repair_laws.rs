//! What is kept of a repair, and what making it again looks at.

use vstd::prelude::*;

use crate::framework::parse::parsing::recover::{
    index_of_repairs, journal_of, lined_up, plain_repairs, step_lined_up, witnesses_of,
};
use crate::framework::parse::parsing::repairs::{JournaledRepair, Repair, Witness};
use crate::framework::parse::parsing::shift::ParseToken;

verus! {

/// Every step of a repair is made at a token.
pub open spec fn tokens_last(
    repairs: Seq<Repair>,
    token: spec_fn(int) -> Option<ParseToken>,
    start: int,
) -> bool {
    forall|k: int|
        0 <= k < repairs.len() ==> token(index_of_repairs(#[trigger] repairs.take(k), start)) is Some
}

/// A terminal that is made up takes no token, and any other step takes one:
/// after a repair the tail goes on as far behind as there are other steps.
pub proof fn lemma_steps_take_tokens(repairs: Seq<Repair>, start: int)
    ensures
        index_of_repairs(repairs, start) == start + repairs.filter(
            |repair: Repair| !(repair is Insert),
        ).len(),
    decreases repairs.len(),
{
    let takes = |repair: Repair| !(repair is Insert);
    reveal(Seq::filter);
    if repairs.len() > 0 {
        lemma_steps_take_tokens(repairs.drop_last(), start);
        match repairs.last() {
            Repair::Insert(_) => {},
            _ => {},
        }
        assert(takes(repairs.last()) == !(repairs.last() is Insert));
    }
}

/// Making one repair behind another is making the steps of both.
pub proof fn lemma_repairs_in_turn(first: Seq<Repair>, second: Seq<Repair>, start: int)
    ensures
        index_of_repairs(first + second, start) == index_of_repairs(
            second,
            index_of_repairs(first, start),
        ),
    decreases second.len(),
{
    if second.len() == 0 {
        assert(first + second =~= first);
    } else {
        lemma_repairs_in_turn(first, second.drop_last(), start);
        assert((first + second).drop_last() =~= first + second.drop_last());
        assert((first + second).last() == second.last());
    }
}

/// Every step is kept with the token that it was made at, and that token with
/// its terminal.
pub proof fn lemma_every_step_is_kept(
    repairs: Seq<Repair>,
    token: spec_fn(int) -> Option<ParseToken>,
    start: int,
)
    requires
        tokens_last(repairs, token, start),
    ensures
        journal_of(repairs, token, start).len() == repairs.len(),
        witnesses_of(repairs, token, start).len() == repairs.len(),
        forall|k: int|
            #![trigger journal_of(repairs, token, start)[k]]
            0 <= k < repairs.len() ==> journal_of(repairs, token, start)[k].repair == repairs[k]
                && Some(journal_of(repairs, token, start)[k].anchor) == match token(
                index_of_repairs(repairs.take(k), start),
            ) {
                Some(at) => Some(at.column),
                None => None,
            },
        forall|k: int|
            #![trigger witnesses_of(repairs, token, start)[k]]
            0 <= k < repairs.len() ==> match token(index_of_repairs(repairs.take(k), start)) {
                Some(at) => witnesses_of(repairs, token, start)[k] == (Witness {
                    token: at.column,
                    terminal: at.terminal,
                }),
                None => false,
            },
    decreases repairs.len(),
{
    if repairs.len() > 0 {
        let before = repairs.drop_last();
        let n = repairs.len() - 1;
        assert(repairs.take(n) =~= before);
        assert(token(index_of_repairs(repairs.take(n), start)) is Some);
        assert forall|k: int| 0 <= k < before.len() implies token(
            index_of_repairs(#[trigger] before.take(k), start),
        ) is Some by {
            assert(before.take(k) =~= repairs.take(k));
        }
        lemma_every_step_is_kept(before, token, start);
        let kept = journal_of(before, token, start);
        let seen = witnesses_of(before, token, start);
        let all = journal_of(repairs, token, start);
        let all_seen = witnesses_of(repairs, token, start);
        let at = token(index_of_repairs(before, start))->Some_0;
        assert(all == kept.push(JournaledRepair { repair: repairs.last(), anchor: at.column }));
        assert(all_seen == seen.push(Witness { token: at.column, terminal: at.terminal }));
        assert forall|k: int|
            #![trigger journal_of(repairs, token, start)[k]]
            0 <= k < repairs.len() implies journal_of(repairs, token, start)[k].repair == repairs[k]
            && Some(journal_of(repairs, token, start)[k].anchor) == match token(
            index_of_repairs(repairs.take(k), start),
        ) {
            Some(at) => Some(at.column),
            None => None,
        } by {
            if k < n {
                assert(all[k] == kept[k]);
                assert(before[k] == repairs[k]);
                assert(before.take(k) =~= repairs.take(k));
            }
        }
        assert forall|k: int|
            #![trigger witnesses_of(repairs, token, start)[k]]
            0 <= k < repairs.len() implies match token(index_of_repairs(repairs.take(k), start)) {
            Some(at) => witnesses_of(repairs, token, start)[k] == (Witness {
                token: at.column,
                terminal: at.terminal,
            }),
            None => false,
        } by {
            if k < n {
                assert(all_seen[k] == seen[k]);
                assert(before.take(k) =~= repairs.take(k));
            }
        }
    }
}

/// A kept repair has the steps of the repair, and lines up with the tokens that
/// it was made at; with others only where they are the same ones in the same
/// places.
pub proof fn lemma_kept_repair_lines_up(
    repairs: Seq<Repair>,
    token: spec_fn(int) -> Option<ParseToken>,
    other: spec_fn(int) -> Option<ParseToken>,
)
    requires
        tokens_last(repairs, token, 0),
    ensures
        plain_repairs(journal_of(repairs, token, 0)) == repairs,
        lined_up(journal_of(repairs, token, 0), other) <==> forall|k: int|
            0 <= k < repairs.len() ==> {
                let place = index_of_repairs(#[trigger] repairs.take(k), 0);
                other(place) is Some && other(place)->Some_0.column == token(
                    place,
                )->Some_0.column
            },
        lined_up(journal_of(repairs, token, 0), token),
{
    lemma_every_step_is_kept(repairs, token, 0);
    let kept = journal_of(repairs, token, 0);
    assert(plain_repairs(kept) =~= repairs) by {
        assert forall|k: int| 0 <= k < repairs.len() implies plain_repairs(kept)[k]
            == repairs[k] by {
            assert(journal_of(repairs, token, 0)[k].repair == repairs[k]);
        }
    }
    assert forall|k: int, tokens: spec_fn(int) -> Option<ParseToken>|
        0 <= k < repairs.len() implies #[trigger] step_lined_up(kept, tokens, k) == {
        let place = index_of_repairs(repairs.take(k), 0);
        tokens(place) is Some && tokens(place)->Some_0.column == token(place)->Some_0.column
    } by {
        assert(Some(journal_of(repairs, token, 0)[k].anchor) == match token(
            index_of_repairs(repairs.take(k), 0),
        ) {
            Some(at) => Some(at.column),
            None => None,
        });
        assert(token(index_of_repairs(repairs.take(k), 0)) is Some);
    }
    if lined_up(kept, other) {
        assert forall|k: int| 0 <= k < repairs.len() implies {
            let place = index_of_repairs(#[trigger] repairs.take(k), 0);
            other(place) is Some && other(place)->Some_0.column == token(place)->Some_0.column
        } by {
            assert(step_lined_up(kept, other, k));
        }
    }
    if forall|k: int|
        0 <= k < repairs.len() ==> {
            let place = index_of_repairs(#[trigger] repairs.take(k), 0);
            other(place) is Some && other(place)->Some_0.column == token(place)->Some_0.column
        } {
        assert forall|k: int| 0 <= k < kept.len() implies #[trigger] step_lined_up(
            kept,
            other,
            k,
        ) by {
            let part = repairs.take(k);
        }
    }
    assert forall|k: int| 0 <= k < kept.len() implies #[trigger] step_lined_up(
        kept,
        token,
        k,
    ) by {
        let part = repairs.take(k);
        assert(token(index_of_repairs(part, 0)) is Some);
    }
}

} // verus!
