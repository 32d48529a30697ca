//! What an edit does to the tokens of a document.

use vstd::prelude::*;

use crate::framework::lex::lexed::{
    nameless, occurrence_views, same_payload, same_structure, semantic, LexicalOccurrence,
    OccurrenceView, ParseTokenRef, TapeSplice, TokenOccurrenceId, TokenPatch,
    TokenStructureRevisionId,
};
use crate::framework::lex::token::{no_lexer_work, LexFault, LexerRoot, LexerWork};
use crate::framework::parse::delta::{
    lemma_common_prefix, lemma_common_suffix, lemma_shared_ends, part_of, shared_ends,
};
use crate::sort::{distinct_sorted, sorted_distinct, strictly_ascending};

verus! {

// ---------------------------------------------------------------------------
// Sets of identities

fn listed(list: &Vec<TokenOccurrenceId>, id: TokenOccurrenceId) -> (r: bool)
    ensures
        r == list@.contains(id),
{
    let mut at: usize = 0;
    while at < list.len()
        invariant
            at <= list@.len(),
            forall|i: int| 0 <= i < at ==> list@[i] != id,
        decreases list@.len() - at,
    {
        if list[at] == id {
            assert(list@[at as int] == id);
            return true;
        }
        at += 1;
    }
    false
}

/// The identities of one list that are not in another, in ascending order.
fn without(a: &Vec<TokenOccurrenceId>, b: &Vec<TokenOccurrenceId>) -> (r: Vec<TokenOccurrenceId>)
    ensures
        r@ == distinct_sorted(a@.to_set().difference(b@.to_set())),
        strictly_ascending(r@),
        r@.to_set() == a@.to_set().difference(b@.to_set()),
{
    let mut out: Vec<TokenOccurrenceId> = Vec::new();
    let mut at: usize = 0;
    while at < a.len()
        invariant
            at <= a@.len(),
            forall|id: TokenOccurrenceId| #[trigger]
                out@.contains(id) <==> (exists|i: int| 0 <= i < at && #[trigger] a@[i] == id)
                    && !b@.contains(id),
        decreases a@.len() - at,
    {
        let id = a[at];
        let ghost before = out@;
        if !listed(b, id) {
            out.push(id);
        }
        proof {
            assert forall|other: TokenOccurrenceId| #[trigger]
                out@.contains(other) <==> (exists|i: int|
                    0 <= i < at + 1 && #[trigger] a@[i] == other) && !b@.contains(other) by {
                assert(a@[at as int] == id);
                if out@.contains(other) {
                    let k = choose|k: int| 0 <= k < out@.len() && out@[k] == other;
                    if k < before.len() {
                        assert(before[k] == other);
                        assert(before.contains(other));
                    }
                }
                if before.contains(other) {
                    let k = choose|k: int| 0 <= k < before.len() && before[k] == other;
                    assert(out@[k] == other);
                }
                if other == id && !b@.contains(id) {
                    assert(out@.last() == id);
                }
            }
        }
        at += 1;
    }
    proof {
        assert forall|id: TokenOccurrenceId| out@.contains(id) <==> a@.to_set().difference(
            b@.to_set(),
        ).contains(id) by {
            assert(out@.contains(id) <==> (exists|i: int|
                0 <= i < at && #[trigger] a@[i] == id) && !b@.contains(id));
        }
        assert(out@.to_set() =~= a@.to_set().difference(b@.to_set()));
    }
    sorted_distinct(&out)
}

/// The identities of two lists, in ascending order.
fn both(a: &Vec<TokenOccurrenceId>, b: &Vec<TokenOccurrenceId>) -> (r: Vec<TokenOccurrenceId>)
    ensures
        strictly_ascending(r@),
        r@.to_set() == a@.to_set().union(b@.to_set()),
        r@ == distinct_sorted(a@.to_set().union(b@.to_set())),
{
    let mut out = part_of(a, 0, a.len());
    assert(a@.subrange(0, a@.len() as int) =~= a@);
    let mut at: usize = 0;
    assert(a@ + b@.take(0) =~= a@);
    while at < b.len()
        invariant
            at <= b@.len(),
            out@ == a@ + b@.take(at as int),
        decreases b@.len() - at,
    {
        out.push(b[at]);
        at += 1;
        assert(out@ =~= a@ + b@.take(at as int));
    }
    proof {
        assert(b@.take(at as int) =~= b@);
        assert forall|id: TokenOccurrenceId| out@.contains(id) <==> a@.contains(id) || b@.contains(
            id,
        ) by {
            if a@.contains(id) {
                let k = choose|k: int| 0 <= k < a@.len() && a@[k] == id;
                assert(out@[k] == id);
            }
            if b@.contains(id) {
                let k = choose|k: int| 0 <= k < b@.len() && b@[k] == id;
                assert(out@[a@.len() + k] == id);
            }
        }
        assert(out@.to_set() =~= a@.to_set().union(b@.to_set()));
    }
    sorted_distinct(&out)
}

// ---------------------------------------------------------------------------
// One window

/// What an edit of one window does to the tokens.
pub struct LocalPatch {
    pub splices: Vec<TapeSplice>,
    pub inserted: Vec<TokenOccurrenceId>,
    pub updated: Vec<TokenOccurrenceId>,
    pub removed: Vec<TokenOccurrenceId>,
    pub replayed: usize,
    pub reused: usize,
    /// What is counted of the work.
    pub work: LexerWork,
}

/// What a splice says.
#[verifier::ext_equal]
pub ghost struct SpliceView {
    pub before: Option<TokenOccurrenceId>,
    pub removed: Seq<TokenOccurrenceId>,
    pub inserted: Seq<TokenOccurrenceId>,
    pub after: Option<TokenOccurrenceId>,
}

impl View for TapeSplice {
    type V = SpliceView;

    open spec fn view(&self) -> SpliceView {
        SpliceView {
            before: self.before,
            removed: self.removed@,
            inserted: self.inserted@,
            after: self.after,
        }
    }
}

/// What splices say.
pub open spec fn splice_views(list: Seq<TapeSplice>) -> Seq<SpliceView> {
    Seq::new(list.len(), |i: int| list[i]@)
}

/// The identities of tokens.
pub open spec fn ids_of(list: Seq<ParseTokenRef>) -> Seq<TokenOccurrenceId> {
    Seq::new(list.len(), |i: int| list[i].occurrence)
}

/// What leads from the tokens of a window to others, with its neighbours: what
/// both share at their ends is left out.
pub open spec fn window_splice(
    all: Seq<ParseTokenRef>,
    start: int,
    end: int,
    old: Seq<ParseTokenRef>,
    new: Seq<ParseTokenRef>,
) -> Seq<SpliceView> {
    let (prefix, suffix) = shared_ends(old, new);
    if prefix + suffix == old.len() && prefix + suffix == new.len() {
        Seq::empty()
    } else {
        seq![
            SpliceView {
                before: if prefix > 0 {
                    Some(old[prefix - 1].occurrence)
                } else if 0 < start <= all.len() {
                    Some(all[start - 1].occurrence)
                } else {
                    None
                },
                removed: ids_of(old.subrange(prefix as int, old.len() - suffix)),
                inserted: ids_of(new.subrange(prefix as int, new.len() - suffix)),
                after: if suffix > 0 {
                    Some(old[old.len() - suffix].occurrence)
                } else if end < all.len() {
                    Some(all[end].occurrence)
                } else {
                    None
                },
            },
        ]
    }
}

/// A token that the parser saw before and sees now has changed.
pub open spec fn changed<R>(
    old: Seq<OccurrenceView<R>>,
    new: Seq<OccurrenceView<R>>,
    seen: Seq<ParseTokenRef>,
    i: int,
) -> bool {
    &&& semantic(new[i])
    &&& ids_of(seen).contains(new[i].id)
    &&& exists|j: int|
        0 <= j < old.len() && (#[trigger] old[j]).id == new[i].id && !same_payload(old[j], new[i])
}

/// The tokens that the parser saw before and sees now, and that have changed.
pub open spec fn changed_ids<R>(
    old: Seq<OccurrenceView<R>>,
    new: Seq<OccurrenceView<R>>,
    seen: Seq<ParseTokenRef>,
    upto: int,
) -> Set<TokenOccurrenceId> {
    Set::new(
        |id: TokenOccurrenceId|
            exists|i: int| 0 <= i < upto && #[trigger] changed(old, new, seen, i) && new[i].id == id,
    )
}

/// How many tokens two lists have in common at their starts, and then at their
/// ends.
fn common_ends(old: &Vec<ParseTokenRef>, new: &Vec<ParseTokenRef>) -> (r: (usize, usize))
    ensures
        (r.0 as nat, r.1 as nat) == shared_ends(old@, new@),
        r.0 + r.1 <= old@.len(),
        r.0 + r.1 <= new@.len(),
{
    let mut prefix: usize = 0;
    while prefix < old.len() && prefix < new.len() && same_ref(old[prefix], new[prefix])
        invariant
            prefix <= old@.len(),
            prefix <= new@.len(),
            forall|i: int| 0 <= i < prefix ==> old@[i] == new@[i],
        decreases old@.len() - prefix,
    {
        prefix += 1;
    }
    let ghost a = old@.skip(prefix as int);
    let ghost b = new@.skip(prefix as int);
    proof {
        lemma_common_prefix(old@, new@, prefix as nat);
    }
    let mut suffix: usize = 0;
    while suffix < old.len() - prefix && suffix < new.len() - prefix && same_ref(
        old[old.len() - 1 - suffix],
        new[new.len() - 1 - suffix],
    )
        invariant
            prefix <= old@.len(),
            prefix <= new@.len(),
            suffix <= old@.len() - prefix,
            suffix <= new@.len() - prefix,
            a == old@.skip(prefix as int),
            b == new@.skip(prefix as int),
            forall|i: int|
                0 <= i < suffix ==> a[a.len() - 1 - i] == #[trigger] b[b.len() - 1 - i],
        decreases old@.len() - suffix,
    {
        assert(a[a.len() - 1 - suffix] == old@[old@.len() - 1 - suffix]);
        assert(b[b.len() - 1 - suffix] == new@[new@.len() - 1 - suffix]);
        suffix += 1;
    }
    proof {
        lemma_common_suffix(a, b, suffix as nat);
        let c = a.take(a.len() - suffix);
        let d = b.take(b.len() - suffix);
        if c.len() > 0 && d.len() > 0 {
            assert(c.last() == old@[old@.len() - 1 - suffix]);
            assert(d.last() == new@[new@.len() - 1 - suffix]);
        }
    }
    (prefix, suffix)
}

fn same_ref(a: ParseTokenRef, b: ParseTokenRef) -> (r: bool)
    ensures
        r == (a == b),
{
    a.occurrence == b.occurrence && a.error == b.error && match (a.terminal, b.terminal) {
        (Some(x), Some(y)) => x == y,
        (None, None) => true,
        _ => false,
    }
}

/// The identities of a part of a list of tokens.
fn ids_between(list: &Vec<ParseTokenRef>, from: usize, to: usize) -> (r: Vec<TokenOccurrenceId>)
    requires
        from <= to <= list@.len(),
    ensures
        r@ == ids_of(list@.subrange(from as int, to as int)),
{
    let mut out: Vec<TokenOccurrenceId> = Vec::new();
    let mut at: usize = from;
    while at < to
        invariant
            from <= at <= to <= list@.len(),
            out@.len() == at - from,
            forall|i: int| 0 <= i < at - from ==> out@[i] == list@[from + i].occurrence,
        decreases to - at,
    {
        out.push(list[at].occurrence);
        at += 1;
    }
    assert(out@ =~= ids_of(list@.subrange(from as int, to as int)));
    out
}

fn token_changed<R: LexerRoot>(
    old: &Vec<LexicalOccurrence<R>>,
    token: &LexicalOccurrence<R>,
) -> (r: bool)
    ensures
        r == exists|j: int|
            0 <= j < old@.len() && (#[trigger] occurrence_views(old@)[j]).id == token@.id
                && !same_payload(occurrence_views(old@)[j], token@),
{
    let ghost views = occurrence_views(old@);
    let mut at: usize = 0;
    while at < old.len()
        invariant
            at <= old@.len(),
            views == occurrence_views(old@),
            forall|j: int|
                0 <= j < at ==> !((#[trigger] views[j]).id == token@.id && !same_payload(
                    views[j],
                    token@,
                )),
        decreases old@.len() - at,
    {
        assert(views[at as int] == old@[at as int]@);
        if old[at].id == token.id && !old[at].exact_payload_eq(token) {
            return true;
        }
        at += 1;
    }
    false
}

/// What leads from the tokens of a window to others.
pub fn direct_patch<R: LexerRoot>(
    all: &Vec<ParseTokenRef>,
    old_lexical: &Vec<LexicalOccurrence<R>>,
    new_lexical: &Vec<LexicalOccurrence<R>>,
    old_semantic: &Vec<ParseTokenRef>,
    new_semantic: &Vec<ParseTokenRef>,
    old_semantic_start: usize,
    old_semantic_end: usize,
) -> (r: LocalPatch)
    ensures
        splice_views(r.splices@) == window_splice(
            all@,
            old_semantic_start as int,
            old_semantic_end as int,
            old_semantic@,
            new_semantic@,
        ),
        r.inserted@ == distinct_sorted(
            ids_of(new_semantic@).to_set().difference(ids_of(old_semantic@).to_set()),
        ),
        r.removed@ == distinct_sorted(
            ids_of(old_semantic@).to_set().difference(ids_of(new_semantic@).to_set()),
        ),
        strictly_ascending(r.updated@),
        r.updated@.to_set() == changed_ids(
            occurrence_views(old_lexical@),
            occurrence_views(new_lexical@),
            old_semantic@,
            new_lexical@.len() as int,
        ),
        r.replayed == 0,
        r.reused == 0,
        r.work == no_lexer_work(),
{
    let (prefix, suffix) = common_ends(old_semantic, new_semantic);
    let mut splices: Vec<TapeSplice> = Vec::new();
    let old_end: usize = old_semantic.len() - suffix;
    let new_end: usize = new_semantic.len() - suffix;
    if prefix != old_end || prefix != new_end {
        let before = if prefix > 0 {
            Some(old_semantic[prefix - 1].occurrence)
        } else if 0 < old_semantic_start && old_semantic_start - 1 < all.len() {
            Some(all[old_semantic_start - 1].occurrence)
        } else {
            None
        };
        let after = if suffix > 0 {
            Some(old_semantic[old_end].occurrence)
        } else if old_semantic_end < all.len() {
            Some(all[old_semantic_end].occurrence)
        } else {
            None
        };
        splices.push(
            TapeSplice {
                before,
                removed: ids_between(old_semantic, prefix, old_end),
                inserted: ids_between(new_semantic, prefix, new_end),
                after,
            },
        );
    }
    proof {
        assert(splice_views(splices@) =~= window_splice(
            all@,
            old_semantic_start as int,
            old_semantic_end as int,
            old_semantic@,
            new_semantic@,
        ));
    }
    let old_ids = ids_between(old_semantic, 0, old_semantic.len());
    let new_ids = ids_between(new_semantic, 0, new_semantic.len());
    assert(old_semantic@.subrange(0, old_semantic@.len() as int) =~= old_semantic@);
    assert(new_semantic@.subrange(0, new_semantic@.len() as int) =~= new_semantic@);
    let ghost old_views = occurrence_views(old_lexical@);
    let ghost new_views = occurrence_views(new_lexical@);
    let mut updated: Vec<TokenOccurrenceId> = Vec::new();
    let mut at: usize = 0;
    assert(updated@.to_set() =~= changed_ids(old_views, new_views, old_semantic@, 0));
    while at < new_lexical.len()
        invariant
            at <= new_lexical@.len(),
            old_views == occurrence_views(old_lexical@),
            new_views == occurrence_views(new_lexical@),
            old_ids@ == ids_of(old_semantic@),
            updated@.to_set() == changed_ids(old_views, new_views, old_semantic@, at as int),
        decreases new_lexical@.len() - at,
    {
        let token = &new_lexical[at];
        assert(new_views[at as int] == token@);
        let ghost held = updated@;
        let now = token.is_semantic() && listed(&old_ids, token.id) && token_changed(
            old_lexical,
            token,
        );
        assert(now == changed(old_views, new_views, old_semantic@, at as int));
        if now {
            updated.push(token.id);
        }
        proof {
            let less = changed_ids(old_views, new_views, old_semantic@, at as int);
            let more = changed_ids(old_views, new_views, old_semantic@, at as int + 1);
            assert forall|id: TokenOccurrenceId| updated@.contains(id) <==> more.contains(id) by {
                assert(held.contains(id) <==> less.contains(id)) by {
                    assert(held.to_set().contains(id) <==> less.contains(id));
                }
                if held.contains(id) {
                    let k = choose|k: int| 0 <= k < held.len() && held[k] == id;
                    assert(updated@[k] == id);
                }
                if now && id == token.id {
                    assert(updated@.last() == id);
                    assert(changed(old_views, new_views, old_semantic@, at as int));
                }
                if updated@.contains(id) && !held.contains(id) {
                    let k = choose|k: int| 0 <= k < updated@.len() && updated@[k] == id;
                    if k < held.len() {
                        assert(held[k] == id);
                    }
                }
                if more.contains(id) {
                    let i = choose|i: int|
                        0 <= i < at + 1 && #[trigger] changed(
                            old_views,
                            new_views,
                            old_semantic@,
                            i,
                        ) && new_views[i].id == id;
                    if i < at {
                        assert(less.contains(id));
                    }
                }
                if less.contains(id) {
                    let i = choose|i: int|
                        0 <= i < at && #[trigger] changed(old_views, new_views, old_semantic@, i)
                            && new_views[i].id == id;
                    assert(more.contains(id));
                }
            }
            assert(updated@.to_set() =~= more);
        }
        at += 1;
    }
    LocalPatch {
        splices,
        inserted: without(&new_ids, &old_ids),
        updated: sorted_distinct(&updated),
        removed: without(&old_ids, &new_ids),
        replayed: 0,
        reused: 0,
        work: LexerWork::default(),
    }
}

// ---------------------------------------------------------------------------
// Identities

/// The tokens of a list without their identities.
pub open spec fn nameless_all<R>(list: Seq<OccurrenceView<R>>) -> Seq<OccurrenceView<R>> {
    Seq::new(list.len(), |i: int| nameless(list[i]))
}

/// The tokens between the ends that two lists share are the same to the parser,
/// one for one.
pub open spec fn lined_up_between<R>(
    old: Seq<OccurrenceView<R>>,
    new: Seq<OccurrenceView<R>>,
    prefix: int,
    suffix: int,
) -> bool {
    &&& old.len() == new.len()
    &&& forall|i: int|
        prefix <= i < old.len() - suffix ==> same_structure(#[trigger] old[i], new[i])
}

/// The old token whose identity a new token takes over.
pub open spec fn partner<R>(old: Seq<OccurrenceView<R>>, new: Seq<OccurrenceView<R>>, i: int) -> Option<
    int,
> {
    let (prefix, suffix) = shared_ends(nameless_all(old), nameless_all(new));
    if i < prefix {
        Some(i)
    } else if i >= new.len() - suffix {
        Some(old.len() - (new.len() - i))
    } else if lined_up_between(old, new, prefix as int, suffix as int) {
        Some(i)
    } else {
        None
    }
}

/// How many of the first new tokens have no partner.
pub open spec fn strangers<R>(old: Seq<OccurrenceView<R>>, new: Seq<OccurrenceView<R>>, upto: int) -> nat
    decreases upto,
{
    if upto <= 0 {
        0
    } else {
        strangers(old, new, upto - 1) + if partner(old, new, upto - 1) is None {
            1nat
        } else {
            0
        }
    }
}

/// The identity of a new token: that of its partner, or a fresh one.
pub open spec fn identity_for<R>(
    old: Seq<OccurrenceView<R>>,
    new: Seq<OccurrenceView<R>>,
    next: u64,
    i: int,
) -> TokenOccurrenceId {
    match partner(old, new, i) {
        Some(j) => old[j].id,
        None => TokenOccurrenceId((next + strangers(old, new, i)) as u64),
    }
}

/// New tokens with their identities.
pub open spec fn named<R>(old: Seq<OccurrenceView<R>>, new: Seq<OccurrenceView<R>>, next: u64) -> Seq<
    OccurrenceView<R>,
> {
    Seq::new(
        new.len(),
        |i: int| OccurrenceView { id: identity_for(old, new, next, i), ..new[i] },
    )
}

/// How many tokens two lists have in common at their starts, and then at their
/// ends, but for their identities.
fn common_tokens<R: LexerRoot>(
    old: &Vec<LexicalOccurrence<R>>,
    new: &Vec<LexicalOccurrence<R>>,
) -> (r: (usize, usize))
    ensures
        (r.0 as nat, r.1 as nat) == shared_ends(
            nameless_all(occurrence_views(old@)),
            nameless_all(occurrence_views(new@)),
        ),
        r.0 + r.1 <= old@.len(),
        r.0 + r.1 <= new@.len(),
{
    let ghost x = nameless_all(occurrence_views(old@));
    let ghost y = nameless_all(occurrence_views(new@));
    let mut prefix: usize = 0;
    while prefix < old.len() && prefix < new.len() && old[prefix].exact_segment_eq(&new[prefix])
        invariant
            prefix <= old@.len(),
            prefix <= new@.len(),
            x == nameless_all(occurrence_views(old@)),
            y == nameless_all(occurrence_views(new@)),
            forall|i: int| 0 <= i < prefix ==> x[i] == y[i],
        decreases old@.len() - prefix,
    {
        prefix += 1;
    }
    let ghost a = x.skip(prefix as int);
    let ghost b = y.skip(prefix as int);
    proof {
        lemma_common_prefix(x, y, prefix as nat);
        if a.len() > 0 && b.len() > 0 {
            assert(a[0] == nameless(old@[prefix as int]@));
            assert(b[0] == nameless(new@[prefix as int]@));
        }
    }
    let mut suffix: usize = 0;
    while suffix < old.len() - prefix && suffix < new.len() - prefix && old[old.len() - 1
        - suffix].exact_segment_eq(&new[new.len() - 1 - suffix])
        invariant
            prefix <= old@.len(),
            prefix <= new@.len(),
            suffix <= old@.len() - prefix,
            suffix <= new@.len() - prefix,
            x == nameless_all(occurrence_views(old@)),
            y == nameless_all(occurrence_views(new@)),
            a == x.skip(prefix as int),
            b == y.skip(prefix as int),
            forall|i: int|
                0 <= i < suffix ==> a[a.len() - 1 - i] == #[trigger] b[b.len() - 1 - i],
        decreases old@.len() - suffix,
    {
        assert(a[a.len() - 1 - suffix] == nameless(old@[old@.len() - 1 - suffix]@));
        assert(b[b.len() - 1 - suffix] == nameless(new@[new@.len() - 1 - suffix]@));
        suffix += 1;
    }
    proof {
        lemma_common_suffix(a, b, suffix as nat);
        let c = a.take(a.len() - suffix);
        let d = b.take(b.len() - suffix);
        if c.len() > 0 && d.len() > 0 {
            assert(c.last() == nameless(old@[old@.len() - 1 - suffix]@));
            assert(d.last() == nameless(new@[new@.len() - 1 - suffix]@));
        }
    }
    (prefix, suffix)
}

/// Gives new tokens their identities: tokens that are the same at the ends of
/// the window keep theirs, and so do all between them where they are the same
/// to the parser one for one. The others get fresh ones.
pub fn reconcile_occurrence_ids<R: LexerRoot>(
    next_occurrence: &mut u64,
    past: &Vec<LexicalOccurrence<R>>,
    new: &mut Vec<LexicalOccurrence<R>>,
) -> (r: Result<(), LexFault>)
    ensures
        ({
            let before = occurrence_views(past@);
            let given = occurrence_views(old(new)@);
            let fresh = strangers(before, given, given.len() as int);
            match r {
                Ok(_) => {
                    &&& *old(next_occurrence) + fresh <= u64::MAX
                    &&& *final(next_occurrence) == *old(next_occurrence) + fresh
                    &&& occurrence_views(final(new)@) == named(before, given, *old(next_occurrence))
                },
                Err(fault) => fault == LexFault::IdentitiesExhausted && *old(next_occurrence)
                    + fresh > u64::MAX,
            }
        }),
{
    let ghost before = occurrence_views(past@);
    let ghost given = occurrence_views(new@);
    let ghost first = *next_occurrence;
    let (prefix, suffix) = common_tokens(past, new);
    let total: usize = new.len();
    let old_total: usize = past.len();
    let mut aligned = old_total == total;
    let mut at: usize = prefix;
    if aligned {
        while at < old_total - suffix
            invariant_except_break
                aligned,
            invariant
                prefix <= at <= old_total - suffix,
                old_total == past@.len(),
                total == new@.len(),
                old_total == total,
                prefix + suffix <= old_total,
                before == occurrence_views(past@),
                given == occurrence_views(new@),
                forall|i: int|
                    prefix <= i < at ==> same_structure(#[trigger] before[i], given[i]),
            ensures
                aligned == lined_up_between(before, given, prefix as int, suffix as int),
            decreases old_total - at,
        {
            assert(before[at as int] == past@[at as int]@);
            assert(given[at as int] == new@[at as int]@);
            if !past[at].structural_eq(&new[at]) {
                aligned = false;
                break;
            }
            at += 1;
        }
    }
    assert(aligned == lined_up_between(before, given, prefix as int, suffix as int));
    let mut k: usize = 0;
    while k < total
        invariant
            k <= total,
            total == new@.len(),
            total == given.len(),
            old_total == past@.len(),
            before == occurrence_views(past@),
            given == occurrence_views(old(new)@),
            first == *old(next_occurrence),
            (prefix as nat, suffix as nat) == shared_ends(nameless_all(before), nameless_all(given)),
            prefix + suffix <= old_total,
            prefix + suffix <= total,
            aligned == lined_up_between(before, given, prefix as int, suffix as int),
            *next_occurrence == first + strangers(before, given, k as int),
            forall|i: int|
                0 <= i < k ==> (#[trigger] new@[i])@ == (OccurrenceView {
                    id: identity_for(before, given, first, i),
                    ..given[i]
                }),
            forall|i: int| k <= i < total ==> (#[trigger] new@[i])@ == given[i],
        decreases total - k,
    {
        let kept: Option<usize> = if k < prefix {
            Some(k)
        } else if k >= total - suffix {
            Some(old_total - (total - k))
        } else if aligned {
            Some(k)
        } else {
            None
        };
        let id = match kept {
            Some(j) => {
                assert(before[j as int] == past@[j as int]@);
                past[j].id
            },
            None => {
                let fresh: u64 = *next_occurrence;
                if fresh == u64::MAX {
                    proof {
                        lemma_strangers_grow(before, given, k as int + 1, total as int);
                    }
                    return Err(LexFault::IdentitiesExhausted);
                }
                *next_occurrence = fresh + 1;
                TokenOccurrenceId(fresh)
            },
        };
        let token = new[k].copied();
        let again = LexicalOccurrence {
            id,
            byte_len: token.byte_len,
            terminal: token.terminal,
            skip: token.skip,
            value: token.value,
            error: token.error,
            state_after: token.state_after,
        };
        new.set(k, again);
        k += 1;
    }
    assert(occurrence_views(new@) =~= named(before, given, first));
    Ok(())
}

proof fn lemma_strangers_grow<R>(old: Seq<OccurrenceView<R>>, new: Seq<OccurrenceView<R>>, i: int, j: int)
    requires
        0 <= i <= j,
    ensures
        strangers(old, new, i) <= strangers(old, new, j),
    decreases j - i,
{
    if i < j {
        lemma_strangers_grow(old, new, i, j - 1);
    }
}

// ---------------------------------------------------------------------------
// A command

/// Two splices as one.
pub open spec fn joined_splices(a: SpliceView, b: SpliceView) -> SpliceView {
    SpliceView {
        before: a.before,
        removed: a.removed + b.removed,
        inserted: a.inserted + b.inserted,
        after: b.after,
    }
}

/// Splices with one more: it is joined to the last one where it starts at the
/// token at which that one ends.
pub open spec fn with_splice(list: Seq<SpliceView>, splice: SpliceView) -> Seq<SpliceView> {
    if list.len() > 0 && list.last().after == splice.before {
        list.drop_last().push(joined_splices(list.last(), splice))
    } else {
        list.push(splice)
    }
}

/// Splices with more.
pub open spec fn with_splices(list: Seq<SpliceView>, more: Seq<SpliceView>) -> Seq<SpliceView>
    decreases more.len(),
{
    if more.len() == 0 {
        list
    } else {
        with_splice(with_splices(list, more.drop_last()), more.last())
    }
}

/// What the edits of a command do to the tokens, gathered window by window.
pub struct PatchBuilder {
    old_structure: TokenStructureRevisionId,
    splices: Vec<TapeSplice>,
    inserted: Vec<TokenOccurrenceId>,
    updated: Vec<TokenOccurrenceId>,
    removed: Vec<TokenOccurrenceId>,
}

/// What is gathered.
#[verifier::ext_equal]
pub ghost struct GatheredView {
    pub old_structure: TokenStructureRevisionId,
    pub splices: Seq<SpliceView>,
    pub inserted: Set<TokenOccurrenceId>,
    pub updated: Set<TokenOccurrenceId>,
    pub removed: Set<TokenOccurrenceId>,
}

impl View for PatchBuilder {
    type V = GatheredView;

    closed spec fn view(&self) -> GatheredView {
        GatheredView {
            old_structure: self.old_structure,
            splices: splice_views(self.splices@),
            inserted: self.inserted@.to_set(),
            updated: self.updated@.to_set(),
            removed: self.removed@.to_set(),
        }
    }
}

/// What is gathered, with one window more.
pub open spec fn gathered(v: GatheredView, local: LocalPatch) -> GatheredView {
    GatheredView {
        splices: with_splices(v.splices, splice_views(local.splices@)),
        inserted: v.inserted.union(local.inserted@.to_set()),
        updated: v.updated.union(local.updated@.to_set()),
        removed: v.removed.union(local.removed@.to_set()),
        ..v
    }
}

/// The patch of a command: what came and went again is not mentioned, and what
/// came or went is not mentioned as changed.
pub open spec fn is_patch(
    v: GatheredView,
    structure: TokenStructureRevisionId,
    patch: TokenPatch,
) -> bool {
    let came = v.inserted.difference(v.removed);
    let went = v.removed.difference(v.inserted);
    &&& patch.old_structure == v.old_structure
    &&& patch.new_structure == structure
    &&& splice_views(patch.order_splices@) == v.splices
    &&& patch.inserted@ == distinct_sorted(came)
    &&& patch.removed@ == distinct_sorted(went)
    &&& patch.updated@ == distinct_sorted(v.updated.difference(came.union(went)))
}

/// The keys of a patch are in ascending order, and no two lists have a key in
/// common.
pub open spec fn keys_in_order(patch: TokenPatch) -> bool {
    &&& strictly_ascending(patch.inserted@)
    &&& strictly_ascending(patch.updated@)
    &&& strictly_ascending(patch.removed@)
    &&& patch.inserted@.to_set().disjoint(patch.updated@.to_set())
    &&& patch.inserted@.to_set().disjoint(patch.removed@.to_set())
    &&& patch.updated@.to_set().disjoint(patch.removed@.to_set())
}

impl PatchBuilder {
    /// Nothing gathered.
    pub fn new(structure: TokenStructureRevisionId) -> (r: Self)
        ensures
            r@ == (GatheredView {
                old_structure: structure,
                splices: Seq::empty(),
                inserted: Set::empty(),
                updated: Set::empty(),
                removed: Set::empty(),
            }),
    {
        let r = PatchBuilder {
            old_structure: structure,
            splices: Vec::new(),
            inserted: Vec::new(),
            updated: Vec::new(),
            removed: Vec::new(),
        };
        proof {
            assert(r@.splices =~= Seq::<SpliceView>::empty());
            assert(r@.inserted =~= Set::<TokenOccurrenceId>::empty());
            assert(r@.updated =~= Set::<TokenOccurrenceId>::empty());
            assert(r@.removed =~= Set::<TokenOccurrenceId>::empty());
        }
        r
    }

    fn add_splice(&mut self, splice: &TapeSplice)
        ensures
            final(self)@ == (GatheredView {
                splices: with_splice(old(self)@.splices, splice@),
                ..old(self)@
            }),
    {
        let ghost v = self@;
        let total: usize = self.splices.len();
        let joins = if total > 0 {
            let last = self.splices[total - 1].after;
            match (last, splice.before) {
                (Some(a), Some(b)) => a == b,
                (None, None) => true,
                _ => false,
            }
        } else {
            false
        };
        proof {
            if total > 0 {
                assert(v.splices.last() == self.splices@[total - 1]@);
            }
        }
        if joins {
            if let Some(last) = self.splices.pop() {
                let ghost rest = splice_views(self.splices@);
                let joined = TapeSplice {
                    before: last.before,
                    removed: join(&last.removed, &splice.removed),
                    inserted: join(&last.inserted, &splice.inserted),
                    after: splice.after,
                };
                self.splices.push(joined);
                proof {
                    assert(self@.splices =~= with_splice(v.splices, splice@));
                }
            }
        } else {
            self.splices.push(
                TapeSplice {
                    before: splice.before,
                    removed: part_of(&splice.removed, 0, splice.removed.len()),
                    inserted: part_of(&splice.inserted, 0, splice.inserted.len()),
                    after: splice.after,
                },
            );
            proof {
                assert(splice.removed@.subrange(0, splice.removed@.len() as int)
                    =~= splice.removed@);
                assert(splice.inserted@.subrange(0, splice.inserted@.len() as int)
                    =~= splice.inserted@);
                assert(self@.splices =~= with_splice(v.splices, splice@));
            }
        }
    }

    /// Gathers what an edit of one window does.
    pub fn absorb(&mut self, local: &LocalPatch)
        ensures
            final(self)@ == gathered(old(self)@, *local),
    {
        let ghost v = self@;
        let ghost more = splice_views(local.splices@);
        let mut at: usize = 0;
        assert(more.take(0) =~= Seq::<SpliceView>::empty());
        while at < local.splices.len()
            invariant
                at <= local.splices@.len(),
                v == old(self)@,
                more == splice_views(local.splices@),
                self@ == (GatheredView { splices: with_splices(v.splices, more.take(at as int)), ..v }),
            decreases local.splices@.len() - at,
        {
            proof {
                assert(more.take(at as int + 1).drop_last() =~= more.take(at as int));
                assert(more.take(at as int + 1).last() == local.splices@[at as int]@);
            }
            self.add_splice(&local.splices[at]);
            at += 1;
        }
        assert(more.take(at as int) =~= more);
        self.inserted = both(&self.inserted, &local.inserted);
        self.updated = both(&self.updated, &local.updated);
        self.removed = both(&self.removed, &local.removed);
        assert(self@ =~= gathered(v, *local));
    }

    /// The patch of the command.
    pub fn freeze(self, structure: TokenStructureRevisionId) -> (r: TokenPatch)
        ensures
            is_patch(self@, structure, r),
            keys_in_order(r),
    {
        let inserted = without(&self.inserted, &self.removed);
        let removed = without(&self.removed, &self.inserted);
        let mentioned = both(&inserted, &removed);
        let updated = without(&self.updated, &mentioned);
        TokenPatch {
            old_structure: self.old_structure,
            new_structure: structure,
            order_splices: self.splices,
            inserted,
            updated,
            removed,
        }
    }
}

fn join(a: &Vec<TokenOccurrenceId>, b: &Vec<TokenOccurrenceId>) -> (r: Vec<TokenOccurrenceId>)
    ensures
        r@ == a@ + b@,
{
    let mut out = part_of(a, 0, a.len());
    assert(a@.subrange(0, a@.len() as int) =~= a@);
    let mut at: usize = 0;
    assert(a@ + b@.take(0) =~= a@);
    while at < b.len()
        invariant
            at <= b@.len(),
            out@ == a@ + b@.take(at as int),
        decreases b@.len() - at,
    {
        out.push(b[at]);
        at += 1;
        assert(out@ =~= a@ + b@.take(at as int));
    }
    assert(b@.take(at as int) =~= b@);
    out
}

/// The splice of a window leads from the old tokens to the new ones: where there
/// is none they are the same, and else the tokens before and behind it stay.
pub proof fn lemma_window_splice_leads(
    all: Seq<ParseTokenRef>,
    start: int,
    end: int,
    old_tokens: Seq<ParseTokenRef>,
    new_tokens: Seq<ParseTokenRef>,
)
    ensures
        ({
            let splices = window_splice(all, start, end, old_tokens, new_tokens);
            let (prefix, suffix) = shared_ends(old_tokens, new_tokens);
            if splices.len() == 0 {
                old_tokens == new_tokens
            } else {
                &&& splices.len() == 1
                &&& ids_of(old_tokens) == ids_of(old_tokens.take(prefix as int))
                    + splices[0].removed + ids_of(old_tokens.skip(old_tokens.len() - suffix))
                &&& ids_of(new_tokens) == ids_of(old_tokens.take(prefix as int))
                    + splices[0].inserted + ids_of(old_tokens.skip(old_tokens.len() - suffix))
            }
        }),
{
    let (prefix, suffix) = shared_ends(old_tokens, new_tokens);
    lemma_shared_ends(old_tokens, new_tokens);
    let head = old_tokens.take(prefix as int);
    let tail = old_tokens.skip(old_tokens.len() - suffix);
    let splices = window_splice(all, start, end, old_tokens, new_tokens);
    assert(new_tokens.take(prefix as int) == head);
    assert(new_tokens.skip(new_tokens.len() - suffix) == tail);
    if splices.len() == 0 {
        assert(old_tokens =~= head + tail);
        assert(new_tokens =~= new_tokens.take(prefix as int) + new_tokens.skip(
            new_tokens.len() - suffix,
        ));
    } else {
        assert(ids_of(old_tokens) =~= ids_of(head) + splices[0].removed + ids_of(tail));
        assert forall|i: int| 0 <= i < new_tokens.len() implies #[trigger] ids_of(new_tokens)[i]
            == (ids_of(head) + splices[0].inserted + ids_of(tail))[i] by {
            if i < prefix {
                assert(new_tokens.take(prefix as int)[i] == head[i]);
            } else if i >= new_tokens.len() - suffix {
                let k = i - (new_tokens.len() - suffix);
                assert(new_tokens.skip(new_tokens.len() - suffix)[k] == tail[k]);
            }
        }
        assert(ids_of(new_tokens) =~= ids_of(head) + splices[0].inserted + ids_of(tail));
    }
}

} // verus!
