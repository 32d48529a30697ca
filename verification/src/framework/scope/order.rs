//! Which of several resolved paths are visible.

use vstd::prelude::*;

use core::cmp::Ordering;

use super::graph::{Scope, ScopeDomain};
use super::path::Datum;
use super::resolve::ResolutionPath;

verus! {

/// One label leads to another by at most `steps` pairs.
pub open spec fn leads_within<L>(pairs: Seq<(L, L)>, from: L, to: L, steps: nat) -> bool
    decreases steps,
{
    ||| pairs.contains((from, to))
    ||| steps > 0 && exists|middle: L|
        leads_within(pairs, from, middle, (steps - 1) as nat) && #[trigger] pairs.contains(
            (middle, to),
        )
}

/// One label leads to another by some chain of pairs.
pub open spec fn leads<L>(pairs: Seq<(L, L)>, from: L, to: L) -> bool {
    exists|steps: nat| leads_within(pairs, from, to, steps)
}

/// A strict partial order: preferences that hold no label against itself and no
/// two against each other, repeat none, and hold what follows from two of them.
pub open spec fn is_order<L>(pairs: Seq<(L, L)>) -> bool {
    &&& pairs.no_duplicates()
    &&& forall|x: L, y: L| #[trigger] pairs.contains((x, y)) ==> x != y
    &&& is_consistent(pairs)
    &&& forall|x: L, y: L, z: L| #[trigger]
        pairs.contains((x, y)) && #[trigger] pairs.contains((y, z)) && x != z ==> pairs.contains(
            (x, z),
        )
}

/// No two labels are preferred to each other.
pub open spec fn is_consistent<L>(pairs: Seq<(L, L)>) -> bool {
    forall|x: L, y: L| #[trigger] pairs.contains((x, y)) ==> !pairs.contains((y, x))
}

/// The preferences with one more, unless the reverse already holds.
pub open spec fn with_preference<L>(pairs: Seq<(L, L)>, preferred: L, less: L) -> Seq<(L, L)> {
    if preferred != less && !pairs.contains((preferred, less)) && !pairs.contains(
        (less, preferred),
    ) {
        pairs.push((preferred, less))
    } else {
        pairs
    }
}

/// Two lists of labels agree before place `n` and part there.
pub open spec fn part_at<L>(a: Seq<L>, b: Seq<L>, n: int) -> bool {
    &&& 0 <= n <= a.len()
    &&& n <= b.len()
    &&& forall|i: int| 0 <= i < n ==> a[i] == b[i]
    &&& n < a.len() && n < b.len() ==> a[n] != b[n]
}

/// One list of labels is preferred to another: where they part, its label is
/// preferred, or it ends.
pub open spec fn outranks<L>(pairs: Seq<(L, L)>, a: Seq<L>, b: Seq<L>) -> bool {
    exists|n: int| #[trigger]
        part_at(a, b, n) && ((n < a.len() && n < b.len() && pairs.contains((a[n], b[n]))) || (n
            == a.len() && n < b.len()))
}

/// How two lists of labels stand to each other.
pub open spec fn standing<L>(pairs: Seq<(L, L)>, a: Seq<L>, b: Seq<L>) -> Option<Ordering> {
    if outranks(pairs, a, b) {
        Some(Ordering::Greater)
    } else if outranks(pairs, b, a) {
        Some(Ordering::Less)
    } else if a == b {
        Some(Ordering::Equal)
    } else {
        None
    }
}

/// A strict partial order over edge labels by which visible paths are
/// chosen.
pub struct PathOrder<Label> {
    preferred: Vec<(Label, Label)>,
}

impl<Label> View for PathOrder<Label> {
    type V = Seq<(Label, Label)>;

    closed spec fn view(&self) -> Seq<(Label, Label)> {
        self.preferred@
    }
}

/// Whether the list holds the pair.
fn holds_pair<L: Datum>(pairs: &Vec<(L, L)>, x: &L, y: &L) -> (r: bool)
    ensures
        r == pairs@.contains((*x, *y)),
{
    let mut i: usize = 0;
    while i < pairs.len()
        invariant
            i <= pairs.len(),
            forall|j: int| 0 <= j < i ==> pairs@[j] != (*x, *y),
        decreases pairs.len() - i,
    {
        if pairs[i].0.same(x) && pairs[i].1.same(y) {
            assert(pairs@[i as int] == (*x, *y));
            return true;
        }
        i += 1;
    }
    false
}

proof fn lemma_leads_on<L>(pairs: Seq<(L, L)>, x: L, y: L, z: L)
    requires
        leads(pairs, x, y),
        leads(pairs, y, z),
    ensures
        leads(pairs, x, z),
{
    let m = choose|steps: nat| leads_within(pairs, y, z, steps);
    lemma_leads_on_within(pairs, x, y, z, m);
}

proof fn lemma_leads_on_within<L>(pairs: Seq<(L, L)>, x: L, y: L, z: L, m: nat)
    requires
        leads(pairs, x, y),
        leads_within(pairs, y, z, m),
    ensures
        leads(pairs, x, z),
    decreases m,
{
    if pairs.contains((y, z)) {
        let n = choose|steps: nat| leads_within(pairs, x, y, steps);
        assert(leads_within(pairs, x, z, n + 1));
    } else {
        let w = choose|middle: L|
            leads_within(pairs, y, middle, (m - 1) as nat) && #[trigger] pairs.contains(
                (middle, z),
            );
        lemma_leads_on_within(pairs, x, y, w, (m - 1) as nat);
        let n = choose|steps: nat| leads_within(pairs, x, w, steps);
        assert(leads_within(pairs, x, z, n + 1));
    }
}

/// What is closed under two steps holds every chain.
proof fn lemma_closed_holds_chains<L>(
    base: Seq<(L, L)>,
    all: Seq<(L, L)>,
    x: L,
    y: L,
    steps: nat,
)
    requires
        forall|p: (L, L)| base.contains(p) ==> all.contains(p),
        forall|a: L, b: L, c: L| #[trigger]
            all.contains((a, b)) && #[trigger] all.contains((b, c)) && a != c ==> all.contains(
                (a, c),
            ),
        leads_within(base, x, y, steps),
        x != y,
    ensures
        all.contains((x, y)),
    decreases steps,
{
    if !base.contains((x, y)) {
        let w = choose|middle: L|
            leads_within(base, x, middle, (steps - 1) as nat) && #[trigger] base.contains(
                (middle, y),
            );
        if w == x {
            assert(base.contains((x, y)));
        } else {
            lemma_closed_holds_chains(base, all, x, w, (steps - 1) as nat);
            assert(all.contains((w, y)));
        }
    }
}

/// Two labels are the same, or the first is preferred.
spec fn at_least<L>(pairs: Seq<(L, L)>, x: L, y: L) -> bool {
    x == y || pairs.contains((x, y))
}

/// Where an order gets one preference more, what leads to what did so before, or
/// does so over the new preference, once.
proof fn lemma_once_over<L>(pairs: Seq<(L, L)>, preferred: L, less: L, x: L, y: L, steps: nat)
    requires
        is_order(pairs),
        leads_within(with_preference(pairs, preferred, less), x, y, steps),
    ensures
        pairs.contains((x, y)) || (with_preference(pairs, preferred, less) != pairs && at_least(
            pairs,
            x,
            preferred,
        ) && at_least(pairs, less, y)),
    decreases steps,
{
    let base = with_preference(pairs, preferred, less);
    assert forall|a: L, b: L| #[trigger] base.contains((a, b)) implies pairs.contains((a, b)) || (
    base != pairs && a == preferred && b == less) by {
        let i = base.index_of((a, b));
        if i < pairs.len() {
            assert(pairs[i] == (a, b));
        }
    }
    if !base.contains((x, y)) {
        let m = choose|middle: L|
            leads_within(base, x, middle, (steps - 1) as nat) && #[trigger] base.contains(
                (middle, y),
            );
        lemma_once_over(pairs, preferred, less, x, m, (steps - 1) as nat);
        if pairs.contains((x, m)) && pairs.contains((m, y)) {
            assert(x != y);
        }
    }
}

/// One preference more, whose reverse does not hold, leads from no two labels to
/// each other.
proof fn lemma_no_cycle<L>(pairs: Seq<(L, L)>, preferred: L, less: L, x: L, y: L)
    requires
        is_order(pairs),
        x != y,
        leads(with_preference(pairs, preferred, less), x, y),
    ensures
        !leads(with_preference(pairs, preferred, less), y, x),
{
    let base = with_preference(pairs, preferred, less);
    let n = choose|steps: nat| leads_within(base, x, y, steps);
    lemma_once_over(pairs, preferred, less, x, y, n);
    if leads(base, y, x) {
        let m = choose|steps: nat| leads_within(base, y, x, steps);
        lemma_once_over(pairs, preferred, less, y, x, m);
        if base != pairs {
            assert(preferred != less && !pairs.contains((less, preferred)));
        }
    }
}

spec fn label_set<L>(pairs: Seq<(L, L)>) -> Set<L> {
    pairs.map_values(|p: (L, L)| p.0).to_set().union(
        pairs.map_values(|p: (L, L)| p.1).to_set(),
    )
}

spec fn square<L>(labels: Set<L>) -> Set<(L, L)> {
    Set::new(|p: (L, L)| labels.contains(p.0) && labels.contains(p.1))
}

proof fn lemma_label_set<L>(pairs: Seq<(L, L)>)
    ensures
        label_set(pairs).finite(),
        forall|x: L, y: L| #[trigger]
            pairs.contains((x, y)) ==> label_set(pairs).contains(x) && label_set(pairs).contains(y),
{
    let lefts = pairs.map_values(|p: (L, L)| p.0);
    let rights = pairs.map_values(|p: (L, L)| p.1);
    vstd::seq_lib::seq_to_set_is_finite(lefts);
    vstd::seq_lib::seq_to_set_is_finite(rights);
    assert forall|x: L, y: L| #[trigger] pairs.contains((x, y)) implies label_set(pairs).contains(x)
        && label_set(pairs).contains(y) by {
        let i = pairs.index_of((x, y));
        assert(lefts[i] == x);
        assert(rights[i] == y);
    }
}

proof fn lemma_square_finite<L>(part: Set<L>, labels: Set<L>)
    requires
        part.finite(),
        labels.finite(),
    ensures
        Set::new(|p: (L, L)| part.contains(p.0) && labels.contains(p.1)).finite(),
    decreases part.len(),
{
    let all = Set::new(|p: (L, L)| part.contains(p.0) && labels.contains(p.1));
    if part.len() == 0 {
        assert(part =~= Set::empty());
        assert(all =~= Set::empty());
    } else {
        let x = part.choose();
        let rest = part.remove(x);
        lemma_square_finite(rest, labels);
        let others = Set::new(|p: (L, L)| rest.contains(p.0) && labels.contains(p.1));
        let with_x = labels.map(|y: L| (x, y));
        labels.lemma_map_finite(|y: L| (x, y));
        assert forall|p: (L, L)| all.contains(p) <==> others.union(with_x).contains(p) by {
            if part.contains(p.0) && labels.contains(p.1) && p.0 == x {
                assert(with_x.contains((|y: L| (x, y))(p.1)));
            }
        }
        assert(all =~= others.union(with_x));
    }
}

/// A list of distinct pairs over the labels is no longer than there are such
/// pairs.
proof fn lemma_pairs_bounded<L>(pairs: Seq<(L, L)>, labels: Set<L>)
    requires
        pairs.no_duplicates(),
        labels.finite(),
        forall|x: L, y: L| #[trigger]
            pairs.contains((x, y)) ==> labels.contains(x) && labels.contains(y),
    ensures
        pairs.len() <= square(labels).len(),
{
    lemma_square_finite(labels, labels);
    pairs.unique_seq_to_set();
    assert forall|p: (L, L)| pairs.to_set().contains(p) implies square(labels).contains(p) by {
        assert(pairs.contains((p.0, p.1)));
    }
    vstd::set_lib::lemma_len_subset(pairs.to_set(), square(labels));
}

/// The pair that follows from those at two places is there, if any follows.
spec fn follows_at<L>(pairs: Seq<(L, L)>, i: int, j: int) -> bool {
    pairs[i].1 == pairs[j].0 && pairs[i].0 != pairs[j].1 ==> pairs.contains(
        (pairs[i].0, pairs[j].1),
    )
}

impl<Label: Datum> PathOrder<Label> {
    /// The order that prefers nothing.
    pub fn new() -> (r: Self)
        ensures
            r@ == Seq::<(Label, Label)>::empty(),
            is_order(r@),
    {
        let r = PathOrder { preferred: Vec::new() };
        assert(r@ =~= Seq::empty());
        r
    }

    /// The order that prefers one label to another as well, and all that
    /// follows. Where the reverse already holds, the order stays as it is.
    pub fn prefer(self, preferred: Label, less_preferred: Label) -> (r: Self)
        requires
            is_order(self@),
        ensures
            is_order(r@),
            self@.is_prefix_of(r@),
            forall|x: Label, y: Label| #[trigger]
                r@.contains((x, y)) <==> x != y && leads(
                    with_preference(self@, preferred, less_preferred),
                    x,
                    y,
                ),
    {
        let ghost base = with_preference(self@, preferred, less_preferred);
        let ghost first = self@;
        let ghost preferred_label = preferred;
        let ghost less_label = less_preferred;
        let mut relations = self.preferred;
        if !preferred.same(&less_preferred) && !holds_pair(
            &relations,
            &preferred,
            &less_preferred,
        ) && !holds_pair(&relations, &less_preferred, &preferred) {
            relations.push((preferred, less_preferred));
        }
        assert(relations@ =~= base);
        let ghost labels = label_set(base);
        let ghost room = square(labels).len();
        proof {
            lemma_label_set(base);
            assert forall|x: Label, y: Label| #[trigger] relations@.contains((x, y)) implies x != y
                && leads(base, x, y) by {
                assert(leads_within(base, x, y, 0));
                let i = base.index_of((x, y));
                if i < first.len() {
                    assert(first[i] == (x, y));
                    assert(first.contains((x, y)));
                }
            }
            lemma_pairs_bounded(relations@, labels);
        }
        let mut changed = true;
        while changed
            invariant
                base.is_prefix_of(relations@),
                relations@.no_duplicates(),
                labels.finite(),
                room == square(labels).len(),
                relations@.len() <= room,
                forall|x: Label, y: Label| #[trigger]
                    relations@.contains((x, y)) ==> x != y && leads(base, x, y)
                        && labels.contains(x) && labels.contains(y),
                !changed ==> forall|i: int, j: int|
                    0 <= i < relations@.len() && 0 <= j < relations@.len() ==> #[trigger] follows_at(
                        relations@,
                        i,
                        j,
                    ),
            decreases room - relations@.len(), if changed { 1int } else { 0int },
        {
            changed = false;
            let known = relations.len();
            let mut i: usize = 0;
            while i < known
                invariant
                    i <= known <= relations@.len(),
                    base.is_prefix_of(relations@),
                    relations@.no_duplicates(),
                    labels.finite(),
                    room == square(labels).len(),
                    relations@.len() <= room,
                    forall|x: Label, y: Label| #[trigger]
                        relations@.contains((x, y)) ==> x != y && leads(base, x, y)
                            && labels.contains(x) && labels.contains(y),
                    changed == (relations@.len() > known),
                    forall|a: int, b: int|
                        0 <= a < i && 0 <= b < known ==> #[trigger] follows_at(relations@, a, b),
                decreases known - i,
            {
                let mut j: usize = 0;
                while j < known
                    invariant
                        i < known <= relations@.len(),
                        j <= known,
                        base.is_prefix_of(relations@),
                        relations@.no_duplicates(),
                        labels.finite(),
                        room == square(labels).len(),
                        relations@.len() <= room,
                        forall|x: Label, y: Label| #[trigger]
                            relations@.contains((x, y)) ==> x != y && leads(base, x, y)
                                && labels.contains(x) && labels.contains(y),
                        changed == (relations@.len() > known),
                        forall|a: int, b: int|
                            0 <= a < i && 0 <= b < known ==> #[trigger] follows_at(
                                relations@,
                                a,
                                b,
                            ),
                        forall|b: int|
                            0 <= b < j ==> #[trigger] follows_at(relations@, i as int, b),
                    decreases known - j,
                {
                    let ghost was = relations@;
                    let ghost p = was[i as int];
                    let ghost q = was[j as int];
                    if relations[i].1.same(&relations[j].0) && !relations[i].0.same(
                        &relations[j].1,
                    ) && !holds_pair(&relations, &relations[i].0, &relations[j].1) {
                        let left = relations[i].0.copied();
                        let right = relations[j].1.copied();
                        relations.push((left, right));
                        changed = true;
                        proof {
                            assert(was.contains((p.0, p.1)));
                            assert(was.contains((q.0, q.1)));
                            lemma_leads_on(base, p.0, p.1, q.1);
                            assert forall|x: Label, y: Label| #[trigger]
                                relations@.contains((x, y)) implies x != y && leads(base, x, y)
                                && labels.contains(x) && labels.contains(y) by {
                                let k = relations@.index_of((x, y));
                                if k < was.len() {
                                    assert(was[k] == (x, y));
                                    assert(was.contains((x, y)));
                                }
                            }
                            assert forall|a: int, b: int|
                                0 <= a < known && 0 <= b < known && #[trigger] follows_at(
                                    was,
                                    a,
                                    b,
                                ) implies follows_at(relations@, a, b) by {
                                if was.contains((was[a].0, was[b].1)) {
                                    let k = was.index_of((was[a].0, was[b].1));
                                    assert(relations@[k] == (was[a].0, was[b].1));
                                }
                            }
                            assert(relations@[was.len() as int] == (p.0, q.1));
                            assert forall|a: int, b: int|
                                0 <= a < i && 0 <= b < known implies #[trigger] follows_at(
                                relations@,
                                a,
                                b,
                            ) by {
                                assert(follows_at(was, a, b));
                            }
                            assert forall|b: int| 0 <= b < j + 1 implies #[trigger] follows_at(
                                relations@,
                                i as int,
                                b,
                            ) by {
                                if b < j {
                                    assert(follows_at(was, i as int, b));
                                }
                            }
                            lemma_pairs_bounded(relations@, labels);
                        }
                    }
                    j += 1;
                }
                i += 1;
            }
        }
        proof {
            assert forall|x: Label, y: Label, z: Label| #[trigger]
                relations@.contains((x, y)) && #[trigger] relations@.contains((y, z)) && x
                    != z implies relations@.contains((x, z)) by {
                let a = relations@.index_of((x, y));
                let b = relations@.index_of((y, z));
                assert(follows_at(relations@, a, b));
            }
            assert forall|q: (Label, Label)| base.contains(q) implies relations@.contains(q) by {
                let k = base.index_of(q);
                assert(relations@[k] == q);
            }
            assert forall|x: Label, y: Label| x != y && leads(base, x, y) implies #[trigger] relations@.contains(
                (x, y),
            ) by {
                let steps = choose|steps: nat| leads_within(base, x, y, steps);
                lemma_closed_holds_chains(base, relations@, x, y, steps);
            }
            assert(is_consistent(relations@)) by {
                assert forall|x: Label, y: Label| #[trigger]
                    relations@.contains((x, y)) implies !relations@.contains((y, x)) by {
                    if relations@.contains((y, x)) {
                        lemma_no_cycle(first, preferred_label, less_label, x, y);
                    }
                }
            }
            assert(first.is_prefix_of(relations@)) by {
                assert forall|i: int| 0 <= i < first.len() implies first[i] == relations@[i] by {
                    assert(first[i] == base[i]);
                }
                assert(first =~= relations@.take(first.len() as int));
            }
        }
        PathOrder { preferred: relations }
    }

    /// How two resolved paths stand to each other: the first is preferred,
    /// the second is, they take the same labels, or neither is.
    pub fn compare<D: ScopeDomain<Label = Label>>(
        &self,
        left: &ResolutionPath<D>,
        right: &ResolutionPath<D>,
    ) -> (r: Option<Ordering>)
        ensures
            r == standing(self@, left.labels@, right.labels@),
    {
        let ghost a = left.labels@;
        let ghost b = right.labels@;
        let mut i: usize = 0;
        while i < left.labels.len() && i < right.labels.len()
            invariant
                a == left.labels@,
                b == right.labels@,
                i <= a.len(),
                i <= b.len(),
                forall|j: int| 0 <= j < i ==> a[j] == b[j],
            decreases a.len() - i,
        {
            if !left.labels[i].same(&right.labels[i]) {
                let ahead = holds_pair(&self.preferred, &left.labels[i], &right.labels[i]);
                let behind = holds_pair(&self.preferred, &right.labels[i], &left.labels[i]);
                proof {
                    lemma_parted(self@, a, b, i);
                    lemma_parted(self@, b, a, i);
                }
                if ahead {
                    return Some(Ordering::Greater);
                }
                if behind {
                    return Some(Ordering::Less);
                }
                return None;
            }
            i += 1;
        }
        proof {
            lemma_ended(self@, a, b, i);
            lemma_ended(self@, b, a, i);
        }
        if left.labels.len() < right.labels.len() {
            Some(Ordering::Greater)
        } else if right.labels.len() < left.labels.len() {
            Some(Ordering::Less)
        } else {
            assert(a =~= b);
            Some(Ordering::Equal)
        }
    }
}

impl<Label: Datum> Default for PathOrder<Label> {
    fn default() -> (r: Self)
        ensures
            r@ == Seq::<(Label, Label)>::empty(),
            is_order(r@),
    {
        Self::new()
    }
}

proof fn lemma_parted<L>(pairs: Seq<(L, L)>, a: Seq<L>, b: Seq<L>, n: usize)
    requires
        n < a.len(),
        n < b.len(),
        forall|i: int| 0 <= i < n ==> a[i] == b[i],
        a[n as int] != b[n as int],
    ensures
        outranks(pairs, a, b) == pairs.contains((a[n as int], b[n as int])),
        a != b,
{
    assert(part_at(a, b, n as int));
    if outranks(pairs, a, b) {
        let m = choose|m: int| #[trigger]
            part_at(a, b, m) && ((m < a.len() && m < b.len() && pairs.contains((a[m], b[m]))) || (m
                == a.len() && m < b.len()));
        if m < n {
            assert(a[m] == b[m]);
        }
        if n < m {
            assert(a[n as int] == b[n as int]);
        }
    }
}

proof fn lemma_ended<L>(pairs: Seq<(L, L)>, a: Seq<L>, b: Seq<L>, n: usize)
    requires
        n <= a.len(),
        n <= b.len(),
        n == a.len() || n == b.len(),
        forall|i: int| 0 <= i < n ==> a[i] == b[i],
    ensures
        outranks(pairs, a, b) == (a.len() < b.len()),
{
    assert(part_at(a, b, n as int));
    if outranks(pairs, a, b) {
        let m = choose|m: int| #[trigger]
            part_at(a, b, m) && ((m < a.len() && m < b.len() && pairs.contains((a[m], b[m]))) || (m
                == a.len() && m < b.len()));
        if m < n {
            assert(a[m] == b[m]);
        }
    }
}

/// A resolved path as values.
#[verifier::ext_equal]
pub struct PathView<D: ScopeDomain> {
    pub scopes: Seq<Scope>,
    pub labels: Seq<D::Label>,
    pub data: D::ScopeData,
}

impl<D: ScopeDomain> View for ResolutionPath<D> {
    type V = PathView<D>;

    open spec fn view(&self) -> PathView<D> {
        PathView { scopes: self.scopes@, labels: self.labels@, data: self.data }
    }
}

/// The resolved paths of a list as values.
pub open spec fn path_views<D: ScopeDomain>(paths: Seq<ResolutionPath<D>>) -> Seq<PathView<D>> {
    Seq::new(paths.len(), |i: int| paths[i]@)
}

/// No path of the list is preferred to this one.
pub open spec fn is_visible<D: ScopeDomain>(
    pairs: Seq<(D::Label, D::Label)>,
    all: Seq<PathView<D>>,
    path: PathView<D>,
) -> bool {
    forall|i: int|
        0 <= i < all.len() ==> !outranks(pairs, (#[trigger] all[i]).labels, path.labels)
}

/// The paths to which none is preferred.
pub open spec fn visible_paths<D: ScopeDomain>(
    pairs: Seq<(D::Label, D::Label)>,
    all: Seq<PathView<D>>,
) -> Seq<PathView<D>> {
    all.filter(|path: PathView<D>| is_visible(pairs, all, path))
}

/// The paths to which another is preferred.
pub open spec fn hidden_paths<D: ScopeDomain>(
    pairs: Seq<(D::Label, D::Label)>,
    all: Seq<PathView<D>>,
) -> Seq<PathView<D>> {
    all.filter(|path: PathView<D>| !is_visible(pairs, all, path))
}

/// The paths of a list that are preferred to one path.
pub open spec fn preferred_to<D: ScopeDomain>(
    pairs: Seq<(D::Label, D::Label)>,
    list: Seq<PathView<D>>,
    path: PathView<D>,
) -> Seq<PathView<D>> {
    list.filter(|candidate: PathView<D>| outranks(pairs, candidate.labels, path.labels))
}

/// Whether the first path is preferred to the second.
fn is_preferred<D: ScopeDomain>(
    order: &PathOrder<D::Label>,
    left: &ResolutionPath<D>,
    right: &ResolutionPath<D>,
) -> (r: bool)
    ensures
        r == outranks(order@, left@.labels, right@.labels),
{
    match order.compare(left, right) {
        Some(Ordering::Greater) => true,
        _ => false,
    }
}

/// Whether none of the paths is preferred to the one at `place`.
fn stands_visible<D: ScopeDomain>(
    paths: &Vec<ResolutionPath<D>>,
    order: &PathOrder<D::Label>,
    place: usize,
) -> (r: bool)
    requires
        place < paths@.len(),
    ensures
        r == is_visible(order@, path_views(paths@), paths@[place as int]@),
{
    let ghost all = path_views(paths@);
    let mut i: usize = 0;
    while i < paths.len()
        invariant
            i <= paths@.len(),
            place < paths@.len(),
            all == path_views(paths@),
            forall|j: int|
                0 <= j < i ==> !outranks(
                    order@,
                    (#[trigger] all[j]).labels,
                    paths@[place as int]@.labels,
                ),
        decreases paths@.len() - i,
    {
        if is_preferred(order, &paths[i], &paths[place]) {
            assert(outranks(order@, all[i as int].labels, paths@[place as int]@.labels));
            return false;
        }
        i += 1;
    }
    true
}

/// Copies of the paths that are preferred to one path.
fn preferred_among<D: ScopeDomain>(
    paths: &Vec<ResolutionPath<D>>,
    order: &PathOrder<D::Label>,
    path: &ResolutionPath<D>,
) -> (r: Vec<ResolutionPath<D>>)
    ensures
        path_views(r@) == preferred_to(order@, path_views(paths@), path@),
{
    let ghost all = path_views(paths@);
    let ghost test = |candidate: PathView<D>| outranks(order@, candidate.labels, path@.labels);
    let mut out: Vec<ResolutionPath<D>> = Vec::new();
    proof {
        reveal(Seq::filter);
        assert(all.take(0).filter(test) =~= Seq::empty());
    }
    assert(path_views(out@) =~= Seq::empty());
    let mut i: usize = 0;
    while i < paths.len()
        invariant
            i <= paths@.len(),
            all == path_views(paths@),
            test == (|candidate: PathView<D>| outranks(order@, candidate.labels, path@.labels)),
            path_views(out@) == all.take(i as int).filter(test),
        decreases paths@.len() - i,
    {
        proof {
            assert(all.take(i + 1).drop_last() =~= all.take(i as int));
            reveal(Seq::filter);
        }
        let ghost before = out@;
        if is_preferred(order, &paths[i], path) {
            out.push(paths[i].copied());
            assert(path_views(out@) =~= path_views(before).push(all[i as int]));
        }
        i += 1;
    }
    assert(all.take(i as int) =~= all);
    out
}

/// The visible paths, and each of the others with the visible ones that are
/// preferred to it.
pub fn partition_visible<D: ScopeDomain>(
    paths: &Vec<ResolutionPath<D>>,
    order: &PathOrder<D::Label>,
) -> (r: (Vec<ResolutionPath<D>>, Vec<(ResolutionPath<D>, Vec<ResolutionPath<D>>)>))
    ensures
        path_views(r.0@) == visible_paths(order@, path_views(paths@)),
        r.1@.len() == hidden_paths(order@, path_views(paths@)).len(),
        forall|i: int|
            0 <= i < r.1@.len() ==> (#[trigger] r.1@[i]).0@ == hidden_paths(
                order@,
                path_views(paths@),
            )[i] && path_views(r.1@[i].1@) == preferred_to(
                order@,
                visible_paths(order@, path_views(paths@)),
                r.1@[i].0@,
            ),
{
    let ghost all = path_views(paths@);
    let ghost pairs = order@;
    let ghost seen = |path: PathView<D>| is_visible(pairs, all, path);
    let ghost hidden = |path: PathView<D>| !is_visible(pairs, all, path);
    let mut visible: Vec<ResolutionPath<D>> = Vec::new();
    let mut dominated: Vec<ResolutionPath<D>> = Vec::new();
    proof {
        reveal(Seq::filter);
        assert(all.take(0).filter(seen) =~= Seq::empty());
        assert(all.take(0).filter(hidden) =~= Seq::empty());
    }
    assert(path_views(visible@) =~= Seq::empty());
    assert(path_views(dominated@) =~= Seq::empty());
    let mut i: usize = 0;
    while i < paths.len()
        invariant
            i <= paths@.len(),
            all == path_views(paths@),
            pairs == order@,
            seen == (|path: PathView<D>| is_visible(pairs, all, path)),
            hidden == (|path: PathView<D>| !is_visible(pairs, all, path)),
            path_views(visible@) == all.take(i as int).filter(seen),
            path_views(dominated@) == all.take(i as int).filter(hidden),
        decreases paths@.len() - i,
    {
        proof {
            assert(all.take(i + 1).drop_last() =~= all.take(i as int));
            reveal(Seq::filter);
        }
        let ghost before = visible@;
        let ghost under = dominated@;
        if stands_visible(paths, order, i) {
            visible.push(paths[i].copied());
            assert(path_views(visible@) =~= path_views(before).push(all[i as int]));
        } else {
            dominated.push(paths[i].copied());
            assert(path_views(dominated@) =~= path_views(under).push(all[i as int]));
        }
        i += 1;
    }
    assert(all.take(i as int) =~= all);
    let mut shadowed: Vec<(ResolutionPath<D>, Vec<ResolutionPath<D>>)> = Vec::new();
    let mut k: usize = 0;
    while k < dominated.len()
        invariant
            k <= dominated@.len(),
            pairs == order@,
            path_views(visible@) == visible_paths(pairs, all),
            path_views(dominated@) == hidden_paths(pairs, all),
            shadowed@.len() == k,
            forall|j: int|
                0 <= j < k ==> (#[trigger] shadowed@[j]).0@ == hidden_paths(pairs, all)[j]
                    && path_views(shadowed@[j].1@) == preferred_to(
                    pairs,
                    visible_paths(pairs, all),
                    shadowed@[j].0@,
                ),
        decreases dominated@.len() - k,
    {
        let path = dominated[k].copied();
        let by = preferred_among(&visible, order, &path);
        assert(path@ =~= dominated@[k as int]@);
        assert(path@ == path_views(dominated@)[k as int]);
        shadowed.push((path, by));
        k += 1;
    }
    (visible, shadowed)
}

// ---------------------------------------------------------------------------
// Laws
// ---------------------------------------------------------------------------

/// No path is preferred to itself.
pub proof fn lemma_outranks_irreflexive<L>(pairs: Seq<(L, L)>, a: Seq<L>)
    ensures
        !outranks(pairs, a, a),
{
}

/// A path is preferred where it first takes a preferred label, and where the
/// other goes on behind its end; whatever comes later does not count.
pub proof fn lemma_first_difference_decides<L>(
    pairs: Seq<(L, L)>,
    common: Seq<L>,
    one: L,
    other: L,
    rest: Seq<L>,
    more: Seq<L>,
)
    requires
        one != other,
    ensures
        outranks(pairs, common.push(one) + rest, common.push(other) + more) <==> pairs.contains(
            (one, other),
        ),
        outranks(pairs, common, common.push(other) + more),
        !outranks(pairs, common.push(other) + more, common),
{
    let a = common.push(one) + rest;
    let b = common.push(other) + more;
    let n = common.len() as int;
    assert(a[n] == one && b[n] == other);
    assert(part_at(a, b, n));
    assert(part_at(common, b, n));
    if outranks(pairs, a, b) {
        let m = choose|m: int| #[trigger]
            part_at(a, b, m) && ((m < a.len() && m < b.len() && pairs.contains((a[m], b[m]))) || (m
                == a.len() && m < b.len()));
        if m < n {
            assert(a[m] == common[m] && b[m] == common[m]);
        }
        if m > n {
            assert(a[n] == b[n]);
        }
    }
    if outranks(pairs, b, common) {
        let m = choose|m: int| #[trigger]
            part_at(b, common, m) && ((m < b.len() && m < common.len() && pairs.contains(
                (b[m], common[m]),
            )) || (m == b.len() && m < common.len()));
        if m < n {
            assert(b[m] == common[m]);
        }
    }
}

/// Preference among paths is transitive: what is preferred to a preferred path
/// is preferred.
pub proof fn lemma_outranks_transitive<L>(
    pairs: Seq<(L, L)>,
    a: Seq<L>,
    b: Seq<L>,
    c: Seq<L>,
)
    requires
        is_order(pairs),
        outranks(pairs, a, b),
        outranks(pairs, b, c),
    ensures
        outranks(pairs, a, c),
{
    let n = choose|n: int| #[trigger]
        part_at(a, b, n) && ((n < a.len() && n < b.len() && pairs.contains((a[n], b[n]))) || (n
            == a.len() && n < b.len()));
    let m = choose|m: int| #[trigger]
        part_at(b, c, m) && ((m < b.len() && m < c.len() && pairs.contains((b[m], c[m]))) || (m
            == b.len() && m < c.len()));
    if n < m {
        assert(b[n] == c[n]);
        assert(forall|i: int| 0 <= i < n ==> a[i] == b[i] && b[i] == c[i]);
        assert(part_at(a, c, n));
    } else if m < n {
        assert(a[m] == b[m]);
        assert(forall|i: int| 0 <= i < m ==> a[i] == b[i] && b[i] == c[i]);
        assert(part_at(a, c, m));
    } else {
        assert(forall|i: int| 0 <= i < n ==> a[i] == b[i] && b[i] == c[i]);
        if n < a.len() {
            assert(pairs.contains((a[n], b[n])) && pairs.contains((b[n], c[n])));
            assert(a[n] != c[n]);
        }
        assert(part_at(a, c, n));
    }
}

/// No two paths are preferred to each other.
pub proof fn lemma_outranks_asymmetric<L>(pairs: Seq<(L, L)>, a: Seq<L>, b: Seq<L>)
    requires
        is_order(pairs),
        outranks(pairs, a, b),
    ensures
        !outranks(pairs, b, a),
{
    if outranks(pairs, b, a) {
        lemma_outranks_transitive(pairs, a, b, a);
        lemma_outranks_irreflexive(pairs, a);
    }
}

/// Seen from the other side, two lists of labels stand to each other the other
/// way round.
pub proof fn lemma_standing_reverses<L>(pairs: Seq<(L, L)>, a: Seq<L>, b: Seq<L>)
    requires
        is_order(pairs),
    ensures
        standing(pairs, b, a) == match standing(pairs, a, b) {
            Some(Ordering::Greater) => Some(Ordering::Less),
            Some(Ordering::Less) => Some(Ordering::Greater),
            other => other,
        },
{
    if outranks(pairs, a, b) {
        lemma_outranks_asymmetric(pairs, a, b);
    }
}

/// Every path is visible or hidden, and none is both.
pub proof fn lemma_partition_is_complete<D: ScopeDomain>(
    pairs: Seq<(D::Label, D::Label)>,
    all: Seq<PathView<D>>,
    path: PathView<D>,
)
    requires
        all.contains(path),
    ensures
        visible_paths(pairs, all).contains(path) != hidden_paths(pairs, all).contains(path),
        visible_paths(pairs, all).len() + hidden_paths(pairs, all).len() == all.len(),
{
    let seen = |path: PathView<D>| is_visible(pairs, all, path);
    let hidden = |path: PathView<D>| !is_visible(pairs, all, path);
    all.filter_lemma(seen);
    all.filter_lemma(hidden);
    let i = all.index_of(path);
    assert(all[i] == path);
    if seen(all[i]) {
        assert(all.filter(seen).contains(path));
    } else {
        assert(all.filter(hidden).contains(path));
    }
    lemma_filters_add_up(pairs, all, all);
}

proof fn lemma_filters_add_up<D: ScopeDomain>(
    pairs: Seq<(D::Label, D::Label)>,
    all: Seq<PathView<D>>,
    part: Seq<PathView<D>>,
)
    ensures
        part.filter(|path: PathView<D>| is_visible(pairs, all, path)).len() + part.filter(
            |path: PathView<D>| !is_visible(pairs, all, path),
        ).len() == part.len(),
    decreases part.len(),
{
    reveal(Seq::filter);
    if part.len() > 0 {
        lemma_filters_add_up(pairs, all, part.drop_last());
    }
}

/// Every hidden path is hidden by a visible one.
pub proof fn lemma_hidden_by_visible<D: ScopeDomain>(
    pairs: Seq<(D::Label, D::Label)>,
    all: Seq<PathView<D>>,
    path: PathView<D>,
)
    requires
        is_order(pairs),
        hidden_paths(pairs, all).contains(path),
    ensures
        preferred_to(pairs, visible_paths(pairs, all), path).len() > 0,
{
    let hidden = |p: PathView<D>| !is_visible(pairs, all, p);
    let seen = |p: PathView<D>| is_visible(pairs, all, p);
    all.filter_lemma(hidden);
    let k = all.filter(hidden).index_of(path);
    assert(hidden(all.filter(hidden)[k]));
    let q = lemma_visible_above(pairs, all, path);
    all.filter_lemma(seen);
    assert(visible_paths(pairs, all).contains(q)) by {
        let i = all.index_of(q);
        assert(all[i] == q);
        assert(seen(all[i]));
    }
    let over = |candidate: PathView<D>| outranks(pairs, candidate.labels, path.labels);
    let list = visible_paths(pairs, all);
    list.filter_lemma(over);
    let j = list.index_of(q);
    assert(list[j] == q);
    assert(over(list[j]));
    assert(list.filter(over).contains(q));
}

spec fn ranks_above<D: ScopeDomain>(
    pairs: Seq<(D::Label, D::Label)>,
    all: Seq<PathView<D>>,
    path: PathView<D>,
) -> Set<PathView<D>> {
    Set::new(|q: PathView<D>| all.contains(q) && outranks(pairs, q.labels, path.labels))
}

proof fn lemma_visible_above<D: ScopeDomain>(
    pairs: Seq<(D::Label, D::Label)>,
    all: Seq<PathView<D>>,
    path: PathView<D>,
) -> (r: PathView<D>)
    requires
        is_order(pairs),
        !is_visible(pairs, all, path),
    ensures
        all.contains(r),
        is_visible(pairs, all, r),
        outranks(pairs, r.labels, path.labels),
    decreases ranks_above(pairs, all, path).len(),
{
    let i = choose|i: int|
        0 <= i < all.len() && outranks(pairs, (#[trigger] all[i]).labels, path.labels);
    let q = all[i];
    if is_visible(pairs, all, q) {
        q
    } else {
        let above = ranks_above(pairs, all, path);
        let higher = ranks_above(pairs, all, q);
        vstd::seq_lib::seq_to_set_is_finite(all);
        vstd::set_lib::lemma_len_subset(above, all.to_set());
        assert(above.finite());
        assert(above.contains(q));
        lemma_outranks_irreflexive(pairs, q.labels);
        assert(!higher.contains(q));
        assert forall|x: PathView<D>| higher.contains(x) implies above.remove(q).contains(x) by {
            lemma_outranks_transitive(pairs, x.labels, q.labels, path.labels);
        }
        vstd::set_lib::lemma_len_subset(higher, above.remove(q));
        let r = lemma_visible_above(pairs, all, q);
        lemma_outranks_transitive(pairs, r.labels, q.labels, path.labels);
        r
    }
}

} // verus!
