//! What is known of records and repairs after a command.

use vstd::prelude::*;

use crate::framework::lex::lexed::TokenOccurrenceId;
use crate::framework::parse::component::status_seen;
use crate::framework::parse::data::product::{own_record, ProductId, ProductView};
use crate::framework::parse::delta::ParsedStatus;
use crate::framework::parse::diagnostics::status_by;
use crate::framework::parse::parsing::document::{lineages_after, root_record};
use crate::framework::parse::parsing::reductions::{key_of, with_reduction, CacheView};
use crate::framework::parse::parsing::repairs::{RecoveryView, Witness};
use crate::framework::parse::parsing::replay::{is_below, pruned, witness_stands};
use crate::framework::parse::tokens::{is_rank, TokensView};
use crate::framework::parse::types::ParseStatus;

verus! {

/// After a command a record that came bears its identity, one that stayed bears
/// the one that it had, and one that went bears none.
pub proof fn lemma_identities_after_a_command(
    before: Map<u64, u64>,
    went: Seq<u64>,
    came: Seq<u64>,
    lineages: Map<usize, u64>,
    record: u64,
)
    ensures
        ({
            let after = lineages_after(before, went, came, lineages);
            let arrives = came.contains(record) && lineages.dom().contains(record as usize);
            &&& arrives ==> after.dom().contains(record) && after[record]
                == lineages[record as usize]
            &&& !arrives && went.contains(record) ==> !after.dom().contains(record)
            &&& !arrives && !went.contains(record) ==> (after.dom().contains(record)
                <==> before.dom().contains(record))
            &&& !arrives && !went.contains(record) && before.dom().contains(record)
                ==> after[record] == before[record]
        }),
{
}

/// A token that a repair looked at is among the tokens, with the same terminal.
pub open spec fn still_there(tokens: TokensView, witness: Witness) -> bool {
    exists|rank: int|
        0 <= rank < tokens.tokens.len() && (#[trigger] tokens.tokens[rank]).column == witness.token
            && tokens.tokens[rank].terminal == Some(witness.terminal)
}

/// A kept repair goes exactly where it was made at the token and looked at one
/// that is gone or has another terminal. The others stay as they are.
pub proof fn lemma_stale_repairs_go(
    r: RecoveryView,
    tokens: TokensView,
    trigger: TokenOccurrenceId,
    serial: u64,
)
    requires
        r.journal.dom().contains(serial),
    ensures
        ({
            let after = pruned(r, tokens, trigger, None);
            let entry = r.journal[serial];
            &&& after.journal.dom().contains(serial) <==> entry.anchor != trigger || forall|i: int|
                0 <= i < entry.witnesses.len() ==> still_there(
                    tokens,
                    #[trigger] entry.witnesses[i],
                )
            &&& after.journal.dom().contains(serial) ==> after.journal[serial] == entry
        }),
{
    let entry = r.journal[serial];
    assert forall|i: int| 0 <= i < entry.witnesses.len() implies witness_stands(
        tokens,
        #[trigger] entry.witnesses[i],
    ) == still_there(tokens, entry.witnesses[i]) by {
        let witness = entry.witnesses[i];
        if still_there(tokens, witness) {
            let rank = choose|rank: int|
                0 <= rank < tokens.tokens.len() && (#[trigger] tokens.tokens[rank]).column
                    == witness.token && tokens.tokens[rank].terminal == Some(witness.terminal);
            assert(is_rank(tokens, witness.token, rank));
        }
        if witness_stands(tokens, witness) {
            let rank = choose|rank: int| #[trigger]
                is_rank(tokens, witness.token, rank) && tokens.tokens[rank].terminal == Some(
                    witness.terminal,
                );
            assert(tokens.tokens[rank].column == witness.token);
        }
    }
    assert(is_below(serial, None));
}

/// A reduction is remembered: the same production over the same children gives
/// the same product again, and the product tells where it came from. What was
/// known of other reductions stays.
pub proof fn lemma_reduction_is_remembered(
    v: CacheView,
    production: u32,
    children: Seq<ProductId>,
    boundary: TokenOccurrenceId,
    product: ProductId,
)
    ensures
        ({
            let key = key_of(production, children, boundary);
            let w = with_reduction(v, key, product);
            &&& w.products.dom().contains(key)
            &&& w.products[key] == product
            &&& key.production == production
            &&& key.children == children
            &&& children.len() == 0 ==> key.boundary == Some(boundary)
            &&& !children.contains(product) ==> w.origins.dom().contains(product as u64)
                && w.origins[product as u64] == key
            &&& forall|other: u64|
                other != product as u64 && #[trigger] v.origins.dom().contains(other)
                    ==> w.origins.dom().contains(other) && w.origins[other] == v.origins[other]
        }),
        forall|other: u32, others: Seq<ProductId>, place: TokenOccurrenceId|
            (other != production || others != children) ==> {
                let key = #[trigger] key_of(other, others, place);
                let w = with_reduction(v, key_of(production, children, boundary), product);
                &&& w.products.dom().contains(key) <==> v.products.dom().contains(key)
                &&& w.products.dom().contains(key) ==> w.products[key] == v.products[key]
            },
{
}

/// A parse is clean exactly where nothing is said of it; otherwise it counts what
/// is said, and is past mending exactly where nothing was accepted. Editors see
/// the same.
pub proof fn lemma_status_counts_what_is_said(said: usize, nothing_accepted: bool)
    ensures
        status_by(said as nat, nothing_accepted) is Clean <==> said == 0,
        status_by(said as nat, nothing_accepted) is Unrecovered <==> said > 0 && nothing_accepted,
        status_by(said as nat, nothing_accepted) is Recovered <==> said > 0 && !nothing_accepted,
        said > 0 && nothing_accepted ==> status_by(said as nat, nothing_accepted)->regions == said,
        said > 0 && !nothing_accepted ==> status_by(said as nat, nothing_accepted)->segments
            == said,
        status_seen(said as nat, nothing_accepted) == match status_by(
            said as nat,
            nothing_accepted,
        ) {
            ParsedStatus::Clean => ParseStatus::Clean,
            ParsedStatus::Unrecovered { regions } => ParseStatus::Unrecoverable {
                diagnostics: regions,
            },
            ParsedStatus::Recovered { segments } => ParseStatus::Recovered {
                diagnostics: segments,
            },
        },
{
}

/// The record at the root is that of the first accepted product; where it has
/// none of its own, the first of those below it.
pub proof fn lemma_root_is_the_first_accepted(products: Seq<ProductView>, roots: Seq<ProductId>)
    requires
        roots.len() > 0,
        roots[0] < products.len(),
    ensures
        ({
            let first = products[roots[0] as int];
            let root = root_record(products, roots);
            &&& own_record(first) matches Some(record) ==> root == Some(record as u64)
            &&& own_record(first) is None && first.ast_ids.len() > 0 ==> root == Some(
                first.ast_ids[0] as u64,
            )
            &&& own_record(first) is None && first.ast_ids.len() == 0 ==> root is None
        }),
{
}

} // verus!
