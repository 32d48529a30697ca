//! What a parse command changed: for each kind of fact the keys that appeared,
//! changed and went away, and the splices of ordered lists.

use std::collections::HashSet;
use vstd::prelude::*;
use vstd::relations::*;

use crate::sort::{strictly_ascending, Ordered};
use crate::store::RadixMap;

verus! {

/// A stable identity of a syntax node.
#[derive(Clone, Copy, Debug, Default, PartialEq, Eq, PartialOrd, Ord, Hash, Structural)]
pub struct SyntaxNodeId(pub u64);

/// The identity of a token that recovery made up.
#[derive(Clone, Copy, Debug, Default, PartialEq, Eq, PartialOrd, Ord, Hash, Structural)]
pub struct SyntheticTokenId(pub u64);

/// The identity of a diagnostic, derived from what it says.
#[derive(Clone, Copy, Debug, PartialEq, Eq, PartialOrd, Ord, Hash, Structural)]
pub struct ParseDiagnosticKey {
    pub document_id: u64,
    pub ordinal: u64,
}

/// The identity of a recovery segment: it stays while the witnesses and the
/// repair stay.
#[derive(Clone, Copy, Debug, PartialEq, Eq, Hash, Structural)]
pub struct RecoverySegmentId(pub u64);

/// A place between tokens.
#[derive(Clone, Copy, Debug, PartialEq, Eq, Hash, Structural)]
pub enum TokenAnchor {
    Bof,
    Occurrence(u64),
    Eof,
}

/// How a parse ended.
#[derive(Clone, Copy, Debug, PartialEq, Eq, Hash, Structural)]
pub enum ParsedStatus {
    Clean,
    Recovered { segments: usize },
    Unrecovered { regions: usize },
}

/// An identity with the record that bears it.
#[derive(Clone, Copy, Debug, PartialEq, Eq, Structural)]
pub struct LineageRecord {
    pub lineage: SyntaxNodeId,
    pub record: u64,
}

/// A record that left the tree, with what is needed to take it back: the arena
/// record is not consulted after its death.
#[derive(Debug, PartialEq, Eq)]
pub struct RemovedRecord {
    /// The identity that leaves.
    pub lineage: SyntaxNodeId,
    /// The dead record.
    pub record: u64,
    /// Its former parent.
    pub parent_record: Option<u64>,
    /// The identity of its former parent.
    pub parent_lineage: Option<u64>,
    /// Its former children, in order.
    pub child_records: Vec<u64>,
}

impl Ordered for SyntaxNodeId {
    open spec fn le_spec(self, other: Self) -> bool {
        self.0 <= other.0
    }

    proof fn lemma_total() {
    }

    fn le_exec(&self, other: &Self) -> (r: bool) {
        self.0 <= other.0
    }
}

impl Ordered for SyntheticTokenId {
    open spec fn le_spec(self, other: Self) -> bool {
        self.0 <= other.0
    }

    proof fn lemma_total() {
    }

    fn le_exec(&self, other: &Self) -> (r: bool) {
        self.0 <= other.0
    }
}

impl Ordered for ParseDiagnosticKey {
    open spec fn le_spec(self, other: Self) -> bool {
        self.document_id < other.document_id || (self.document_id == other.document_id
            && self.ordinal <= other.ordinal)
    }

    proof fn lemma_total() {
    }

    fn le_exec(&self, other: &Self) -> (r: bool) {
        self.document_id < other.document_id || (self.document_id == other.document_id
            && self.ordinal <= other.ordinal)
    }
}

impl Ordered for LineageRecord {
    open spec fn le_spec(self, other: Self) -> bool {
        self.lineage.0 < other.lineage.0 || (self.lineage.0 == other.lineage.0 && self.record
            <= other.record)
    }

    proof fn lemma_total() {
    }

    fn le_exec(&self, other: &Self) -> (r: bool) {
        self.lineage.0 < other.lineage.0 || (self.lineage.0 == other.lineage.0 && self.record
            <= other.record)
    }
}

/// The keys of one kind of fact that appeared, changed and went away: in
/// ascending order, and no key twice. A fact that stays as it is, is not
/// mentioned.
#[derive(Debug)]
pub struct KeyDelta<K> {
    pub inserted: Vec<K>,
    pub updated: Vec<K>,
    pub removed: Vec<K>,
}

/// No value is in both lists.
pub open spec fn apart<K>(a: Seq<K>, b: Seq<K>) -> bool {
    forall|i: int, j: int| 0 <= i < a.len() && 0 <= j < b.len() ==> #[trigger] a[i] != #[trigger] b[j]
}

/// The lists are in ascending order.
fn is_sorted<K: Ordered>(values: &Vec<K>) -> (r: bool)
    ensures
        r == strictly_ascending(values@),
{
    proof {
        K::lemma_total();
    }
    let mut index: usize = 1;
    while index < values.len()
        invariant
            1 <= index,
            total_ordering(|a: K, b: K| a.le_spec(b)),
            forall|i: int, j: int|
                0 <= i < j < index && j < values@.len() ==> (#[trigger] values@[i]).le_spec(
                    #[trigger] values@[j],
                ) && values@[i] != values@[j],
        decreases values@.len() - index,
    {
        let before = values[index - 1];
        let here = values[index];
        let up = before.le_exec(&here);
        let down = here.le_exec(&before);
        let ghost leq = |a: K, b: K| a.le_spec(b);
        assert(leq(before, here) == up && leq(here, before) == down);
        if !up || down {
            proof {
                assert(values@[index - 1] == before && values@[index as int] == here);
                if up && down {
                    assert(before == here);
                }
            }
            return false;
        }
        assert forall|i: int, j: int| 0 <= i < j < index + 1 && j < values@.len() implies (
        #[trigger] values@[i]).le_spec(#[trigger] values@[j]) && values@[i] != values@[j] by {
            if j == index {
                assert(leq(here, here));
                if i < index - 1 {
                    assert(values@[i].le_spec(values@[index - 1]));
                    assert(leq(values@[i], before));
                    assert(leq(before, here));
                    assert(leq(values@[i], here));
                    if values@[i] == here {
                        assert(leq(here, before));
                    }
                } else if before == here {
                    assert(leq(here, before));
                }
            }
        }
        index += 1;
    }
    true
}

/// The two lists have no value in common.
fn are_apart<K: Ordered>(a: &Vec<K>, b: &Vec<K>) -> (r: bool)
    ensures
        r == apart(a@, b@),
{
    proof {
        K::lemma_total();
    }
    let ghost leq = |x: K, y: K| x.le_spec(y);
    let mut i: usize = 0;
    while i < a.len()
        invariant
            i <= a@.len(),
            total_ordering(leq),
            leq == (|x: K, y: K| x.le_spec(y)),
            forall|k: int, j: int|
                0 <= k < i && 0 <= j < b@.len() ==> #[trigger] a@[k] != #[trigger] b@[j],
        decreases a@.len() - i,
    {
        let mut j: usize = 0;
        while j < b.len()
            invariant
                i < a@.len(),
                j <= b@.len(),
                total_ordering(leq),
                leq == (|x: K, y: K| x.le_spec(y)),
                forall|k: int| 0 <= k < j ==> a@[i as int] != #[trigger] b@[k],
            decreases b@.len() - j,
        {
            let one = a[i];
            let other = b[j];
            let up = one.le_exec(&other);
            let down = other.le_exec(&one);
            assert(leq(one, other) == up && leq(other, one) == down);
            assert(leq(one, one));
            if up && down {
                assert(one == other);
                assert(a@[i as int] == b@[j as int]);
                return false;
            }
            j += 1;
        }
        i += 1;
    }
    true
}

impl<K: Ordered> KeyDelta<K> {
    /// Nothing changed.
    pub open spec fn spec_is_empty(self) -> bool {
        self.inserted@.len() == 0 && self.updated@.len() == 0 && self.removed@.len() == 0
    }

    /// The lists are in ascending order and have no key in common.
    pub open spec fn sorted_disjoint(self) -> bool {
        &&& strictly_ascending(self.inserted@)
        &&& strictly_ascending(self.updated@)
        &&& strictly_ascending(self.removed@)
        &&& apart(self.inserted@, self.updated@)
        &&& apart(self.inserted@, self.removed@)
        &&& apart(self.updated@, self.removed@)
    }

    /// A change of nothing.
    pub fn empty() -> (r: Self)
        ensures
            r.spec_is_empty(),
            r.sorted_disjoint(),
    {
        KeyDelta { inserted: Vec::new(), updated: Vec::new(), removed: Vec::new() }
    }

    /// True where nothing changed.
    pub fn is_empty(&self) -> (r: bool)
        ensures
            r == self.spec_is_empty(),
    {
        self.inserted.len() == 0 && self.updated.len() == 0 && self.removed.len() == 0
    }

    /// How many keys are mentioned.
    pub fn len(&self) -> (r: usize)
        requires
            self.inserted@.len() + self.updated@.len() + self.removed@.len() <= usize::MAX,
        ensures
            r == self.inserted@.len() + self.updated@.len() + self.removed@.len(),
    {
        self.inserted.len() + self.updated.len() + self.removed.len()
    }

    /// True where the lists are in ascending order and have no key in common.
    pub fn assert_sorted_disjoint(&self) -> (r: bool)
        ensures
            r == self.sorted_disjoint(),
    {
        is_sorted(&self.inserted) && is_sorted(&self.updated) && is_sorted(&self.removed)
            && are_apart(&self.inserted, &self.updated) && are_apart(&self.inserted, &self.removed)
            && are_apart(&self.updated, &self.removed)
    }
}

// ---------------------------------------------------------------------------
// Ordered lists

/// A splice of an ordered list: what stood between two neighbours that stay,
/// and what stands there now.
#[derive(Debug)]
pub struct OrderedDelta<K> {
    pub before: Option<K>,
    pub removed: Vec<K>,
    pub inserted: Vec<K>,
    pub after: Option<K>,
}

impl<K> OrderedDelta<K> {
    /// A splice of nothing.
    pub fn empty() -> (r: Self)
        ensures
            r.before is None,
            r.removed@ == Seq::<K>::empty(),
            r.inserted@ == Seq::<K>::empty(),
            r.after is None,
    {
        OrderedDelta { before: None, removed: Vec::new(), inserted: Vec::new(), after: None }
    }
}

/// How many values two lists have in common at their starts.
pub open spec fn common_prefix<K>(old: Seq<K>, new: Seq<K>) -> nat
    decreases old.len(),
{
    if old.len() == 0 || new.len() == 0 || old[0] != new[0] {
        0
    } else {
        1 + common_prefix(old.drop_first(), new.drop_first())
    }
}

/// How many values two lists have in common at their ends.
pub open spec fn common_suffix<K>(old: Seq<K>, new: Seq<K>) -> nat
    decreases old.len(),
{
    if old.len() == 0 || new.len() == 0 || old.last() != new.last() {
        0
    } else {
        1 + common_suffix(old.drop_last(), new.drop_last())
    }
}

/// The parts of two lists that stay: as long a start as possible, and then as
/// long an end.
pub open spec fn shared_ends<K>(old: Seq<K>, new: Seq<K>) -> (nat, nat) {
    let prefix = common_prefix(old, new);
    (prefix, common_suffix(old.skip(prefix as int), new.skip(prefix as int)))
}

pub proof fn lemma_common_prefix<K>(old: Seq<K>, new: Seq<K>, upto: nat)
    requires
        upto <= old.len(),
        upto <= new.len(),
        forall|i: int| 0 <= i < upto ==> old[i] == new[i],
    ensures
        common_prefix(old, new) == upto + common_prefix(old.skip(upto as int), new.skip(upto as int)),
    decreases upto,
{
    if upto == 0 {
        assert(old.skip(0) =~= old);
        assert(new.skip(0) =~= new);
    } else {
        let a = old.drop_first();
        let b = new.drop_first();
        assert(old[0] == new[0]);
        assert forall|i: int| 0 <= i < upto - 1 implies a[i] == b[i] by {
            assert(a[i] == old[i + 1]);
            assert(b[i] == new[i + 1]);
        }
        lemma_common_prefix(a, b, (upto - 1) as nat);
        assert(a.skip(upto - 1) =~= old.skip(upto as int));
        assert(b.skip(upto - 1) =~= new.skip(upto as int));
    }
}

pub proof fn lemma_common_suffix<K>(old: Seq<K>, new: Seq<K>, upto: nat)
    requires
        upto <= old.len(),
        upto <= new.len(),
        forall|i: int| 0 <= i < upto ==> old[old.len() - 1 - i] == #[trigger] new[new.len() - 1 - i],
    ensures
        common_suffix(old, new) == upto + common_suffix(
            old.take(old.len() - upto),
            new.take(new.len() - upto),
        ),
    decreases upto,
{
    if upto == 0 {
        assert(old.take(old.len() as int) =~= old);
        assert(new.take(new.len() as int) =~= new);
    } else {
        let a = old.drop_last();
        let b = new.drop_last();
        assert(old[old.len() - 1 - 0] == new[new.len() - 1 - 0]);
        assert forall|i: int| 0 <= i < upto - 1 implies a[a.len() - 1 - i] == #[trigger] b[b.len()
            - 1 - i] by {
            assert(a[a.len() - 1 - i] == old[old.len() - 1 - (i + 1)]);
            assert(b[b.len() - 1 - i] == new[new.len() - 1 - (i + 1)]);
        }
        lemma_common_suffix(a, b, (upto - 1) as nat);
        assert(a.take(a.len() - (upto - 1)) =~= old.take(old.len() - upto));
        assert(b.take(b.len() - (upto - 1)) =~= new.take(new.len() - upto));
    }
}

/// What the shared ends of two lists are.
pub proof fn lemma_shared_ends<K>(old: Seq<K>, new: Seq<K>)
    ensures
        ({
            let (prefix, suffix) = shared_ends(old, new);
            &&& prefix + suffix <= old.len()
            &&& prefix + suffix <= new.len()
            &&& old.take(prefix as int) == new.take(prefix as int)
            &&& old.skip(old.len() - suffix) == new.skip(new.len() - suffix)
        }),
{
    let (prefix, suffix) = shared_ends(old, new);
    lemma_prefix_agrees(old, new);
    let a = old.skip(prefix as int);
    let b = new.skip(prefix as int);
    lemma_suffix_agrees(a, b);
    assert(old.skip(old.len() - suffix) =~= a.skip(a.len() - suffix));
    assert(new.skip(new.len() - suffix) =~= b.skip(b.len() - suffix));
}

proof fn lemma_prefix_agrees<K>(old: Seq<K>, new: Seq<K>)
    ensures
        common_prefix(old, new) <= old.len(),
        common_prefix(old, new) <= new.len(),
        old.take(common_prefix(old, new) as int) == new.take(common_prefix(old, new) as int),
    decreases old.len(),
{
    let n = common_prefix(old, new);
    if n > 0 {
        let a = old.drop_first();
        let b = new.drop_first();
        lemma_prefix_agrees(a, b);
        assert forall|i: int| 0 <= i < n implies old[i] == new[i] by {
            if i > 0 {
                assert(a.take(n - 1)[i - 1] == b.take(n - 1)[i - 1]);
            }
        }
    }
    assert(old.take(n as int) =~= new.take(n as int));
}

proof fn lemma_suffix_agrees<K>(old: Seq<K>, new: Seq<K>)
    ensures
        common_suffix(old, new) <= old.len(),
        common_suffix(old, new) <= new.len(),
        old.skip(old.len() - common_suffix(old, new)) == new.skip(
            new.len() - common_suffix(old, new),
        ),
    decreases old.len(),
{
    let n = common_suffix(old, new);
    if n > 0 {
        let a = old.drop_last();
        let b = new.drop_last();
        lemma_suffix_agrees(a, b);
        let c = old.skip(old.len() - n);
        let d = new.skip(new.len() - n);
        assert forall|i: int| 0 <= i < n implies #[trigger] c[i] == d[i] by {
            if i < n - 1 {
                assert(a.skip(a.len() - (n - 1))[i] == b.skip(b.len() - (n - 1))[i]);
            }
        }
    }
    assert(old.skip(old.len() - n) =~= new.skip(new.len() - n));
}

/// How many values two lists have in common at their starts, and then at their
/// ends.
pub fn common_edges(old: &Vec<SyntaxNodeId>, new: &Vec<SyntaxNodeId>) -> (r: (usize, usize))
    ensures
        (r.0 as nat, r.1 as nat) == shared_ends(old@, new@),
        r.0 + r.1 <= old@.len(),
        r.0 + r.1 <= new@.len(),
{
    let mut prefix: usize = 0;
    while prefix < old.len() && prefix < new.len() && old[prefix] == new[prefix]
        invariant
            prefix <= old@.len(),
            prefix <= new@.len(),
            forall|i: int| 0 <= i < prefix ==> old@[i] == new@[i],
        decreases old@.len() - prefix,
    {
        prefix += 1;
    }
    let ghost a = old@.skip(prefix as int);
    let ghost b = new@.skip(prefix as int);
    proof {
        lemma_common_prefix(old@, new@, prefix as nat);
    }
    let mut suffix: usize = 0;
    while suffix < old.len() - prefix && suffix < new.len() - prefix && old[old.len() - 1 - suffix]
        == new[new.len() - 1 - suffix]
        invariant
            prefix <= old@.len(),
            prefix <= new@.len(),
            suffix <= old@.len() - prefix,
            suffix <= new@.len() - prefix,
            a == old@.skip(prefix as int),
            b == new@.skip(prefix as int),
            forall|i: int|
                0 <= i < suffix ==> a[a.len() - 1 - i] == #[trigger] b[b.len() - 1 - i],
        decreases old@.len() - suffix,
    {
        assert(a[a.len() - 1 - suffix] == old@[old@.len() - 1 - suffix]);
        assert(b[b.len() - 1 - suffix] == new@[new@.len() - 1 - suffix]);
        suffix += 1;
    }
    proof {
        lemma_common_suffix(a, b, suffix as nat);
        let c = a.take(a.len() - suffix);
        let d = b.take(b.len() - suffix);
        if c.len() > 0 && d.len() > 0 {
            assert(c.last() == old@[old@.len() - 1 - suffix]);
            assert(d.last() == new@[new@.len() - 1 - suffix]);
        }
    }
    (prefix, suffix)
}

/// A copy of a part of a list.
pub(crate) fn part_of<K: Copy>(list: &Vec<K>, from: usize, to: usize) -> (r: Vec<K>)
    requires
        from <= to <= list@.len(),
    ensures
        r@ == list@.subrange(from as int, to as int),
{
    let mut out: Vec<K> = Vec::new();
    let mut index: usize = from;
    assert(out@ =~= list@.subrange(from as int, from as int));
    while index < to
        invariant
            from <= index <= to <= list@.len(),
            out@ == list@.subrange(from as int, index as int),
        decreases to - index,
    {
        out.push(list[index]);
        index += 1;
        assert(out@ =~= list@.subrange(from as int, index as int));
    }
    out
}

/// `delta` is the shortest splice that leads from one list to another: the
/// ends that both share are left out and named by their inner values.
pub open spec fn is_splice(
    delta: OrderedDelta<SyntaxNodeId>,
    old: Seq<SyntaxNodeId>,
    new: Seq<SyntaxNodeId>,
) -> bool {
    let (prefix, suffix) = shared_ends(old, new);
    &&& delta.removed@ == old.subrange(prefix as int, old.len() - suffix)
    &&& delta.inserted@ == new.subrange(prefix as int, new.len() - suffix)
    &&& delta.before == if prefix > 0 {
        Some(new[prefix - 1])
    } else {
        None::<SyntaxNodeId>
    }
    &&& delta.after == if suffix > 0 {
        Some(new[new.len() - suffix])
    } else {
        None::<SyntaxNodeId>
    }
}

/// The shortest splice that leads from one list to another.
pub fn ordered_splice(old: &Vec<SyntaxNodeId>, new: &Vec<SyntaxNodeId>) -> (r: OrderedDelta<
    SyntaxNodeId,
>)
    ensures
        is_splice(r, old@, new@),
{
    let (prefix, suffix) = common_edges(old, new);
    OrderedDelta {
        before: if prefix > 0 {
            Some(new[prefix - 1])
        } else {
            None
        },
        removed: part_of(old, prefix, old.len() - suffix),
        inserted: part_of(new, prefix, new.len() - suffix),
        after: if suffix > 0 {
            Some(new[new.len() - suffix])
        } else {
            None
        },
    }
}

/// Putting the inserted values of a splice in the place of the removed ones
/// gives the new list back.
pub proof fn lemma_splice_rebuilds(
    delta: OrderedDelta<SyntaxNodeId>,
    old: Seq<SyntaxNodeId>,
    new: Seq<SyntaxNodeId>,
)
    requires
        is_splice(delta, old, new),
    ensures
        ({
            let prefix = shared_ends(old, new).0 as int;
            &&& old.subrange(prefix, prefix + delta.removed@.len()) == delta.removed@
            &&& old.take(prefix) + delta.inserted@ + old.skip(prefix + delta.removed@.len()) == new
        }),
        old == new ==> delta.removed@.len() == 0 && delta.inserted@.len() == 0,
{
    let (prefix, suffix) = shared_ends(old, new);
    lemma_shared_ends(old, new);
    assert(new =~= new.take(prefix as int) + new.subrange(prefix as int, new.len() - suffix)
        + new.skip(new.len() - suffix));
    if old == new {
        lemma_common_prefix(old, new, old.len());
    }
}

proof fn lemma_prefix_ends<K>(old: Seq<K>, new: Seq<K>)
    ensures
        ({
            let n = common_prefix(old, new) as int;
            n < old.len() && n < new.len() ==> old[n] != new[n]
        }),
    decreases old.len(),
{
    if old.len() > 0 && new.len() > 0 && old[0] == new[0] {
        let a = old.drop_first();
        let b = new.drop_first();
        lemma_prefix_ends(a, b);
        let n = common_prefix(a, b) as int;
        if n < a.len() && n < b.len() {
            assert(a[n] == old[n + 1]);
            assert(b[n] == new[n + 1]);
        }
    }
}

proof fn lemma_suffix_ends<K>(old: Seq<K>, new: Seq<K>)
    ensures
        ({
            let n = common_suffix(old, new) as int;
            n < old.len() && n < new.len() ==> old[old.len() - 1 - n] != new[new.len() - 1 - n]
        }),
    decreases old.len(),
{
    if old.len() > 0 && new.len() > 0 && old.last() == new.last() {
        let a = old.drop_last();
        let b = new.drop_last();
        lemma_suffix_ends(a, b);
        let n = common_suffix(a, b) as int;
        if n < a.len() && n < b.len() {
            assert(a[a.len() - 1 - n] == old[old.len() - 1 - (n + 1)]);
            assert(b[b.len() - 1 - n] == new[new.len() - 1 - (n + 1)]);
        }
    }
}

/// A splice takes out and puts in no more than it must: what it takes out and
/// what it puts in neither begin nor end alike.
pub proof fn lemma_splice_is_short(
    delta: OrderedDelta<SyntaxNodeId>,
    old: Seq<SyntaxNodeId>,
    new: Seq<SyntaxNodeId>,
)
    requires
        is_splice(delta, old, new),
        delta.removed@.len() > 0,
        delta.inserted@.len() > 0,
    ensures
        delta.removed@[0] != delta.inserted@[0],
        delta.removed@.last() != delta.inserted@.last(),
{
    let (prefix, suffix) = shared_ends(old, new);
    let p = prefix as int;
    lemma_shared_ends(old, new);
    lemma_prefix_ends(old, new);
    lemma_suffix_ends(old.skip(p), new.skip(p));
    let a = old.skip(p);
    let b = new.skip(p);
    assert(delta.removed@[0] == old[p]);
    assert(delta.inserted@[0] == new[p]);
    assert(delta.removed@.last() == a[a.len() - 1 - suffix]);
    assert(delta.inserted@.last() == b[b.len() - 1 - suffix]);
}

// ---------------------------------------------------------------------------
// One command's changes

/// How the children of one parent changed.
#[derive(Debug)]
pub struct ChildSplice {
    pub parent: SyntaxNodeId,
    pub delta: OrderedDelta<SyntaxNodeId>,
    /// The children that went away, with records that tell what they were.
    pub removed_children: Vec<LineageRecord>,
    /// The children that came, with their records.
    pub inserted_children: Vec<LineageRecord>,
}

/// The first place of an id in a list.
pub open spec fn is_first(list: Seq<SyntaxNodeId>, id: SyntaxNodeId, at: int) -> bool {
    0 <= at < list.len() && list[at] == id && forall|k: int| 0 <= k < at ==> #[trigger] list[k] != id
}

fn first_of(list: &Vec<SyntaxNodeId>, id: SyntaxNodeId) -> (r: Option<usize>)
    ensures
        match r {
            Some(at) => is_first(list@, id, at as int),
            None => !list@.contains(id),
        },
{
    let mut index: usize = 0;
    while index < list.len()
        invariant
            index <= list@.len(),
            forall|k: int| 0 <= k < index ==> #[trigger] list@[k] != id,
        decreases list@.len() - index,
    {
        if list[index] == id {
            return Some(index);
        }
        index += 1;
    }
    None
}

impl ChildSplice {
    /// The splice fits a list between two places: its anchors are there, what
    /// it removes stands between them, and what it inserts stands nowhere
    /// else.
    pub open spec fn fits(self, order: Seq<SyntaxNodeId>, start: int, end: int) -> bool {
        &&& match self.delta.before {
            Some(before) => is_first(order, before, start - 1),
            None => start == 0,
        }
        &&& match self.delta.after {
            Some(after) => is_first(order, after, end),
            None => end == order.len(),
        }
        &&& start <= end
        &&& order.subrange(start, end) == self.delta.removed@
        &&& forall|i: int|
            0 <= i < self.delta.inserted@.len() ==> !order.take(start).contains(
                #[trigger] self.delta.inserted@[i],
            ) && !order.skip(end).contains(self.delta.inserted@[i])
    }

    /// True where the splice fits a list.
    pub fn assert_anchored(&self, order: &Vec<SyntaxNodeId>) -> (r: bool)
        ensures
            r == exists|start: int, end: int| #[trigger] self.fits(order@, start, end),
    {
        let total: usize = order.len();
        let start: usize = match self.delta.before {
            Some(before) => match first_of(order, before) {
                Some(at) => at + 1,
                None => {
                    return false;
                },
            },
            None => 0,
        };
        let end: usize = match self.delta.after {
            Some(after) => match first_of(order, after) {
                Some(at) => at,
                None => {
                    return false;
                },
            },
            None => total,
        };
        assert forall|s: int, e: int| #[trigger] self.fits(order@, s, e) implies s == start && e
            == end by {
            if let Some(before) = self.delta.before {
                if s - 1 < start - 1 {
                    assert(order@[s - 1] != before);
                }
                if s - 1 > start - 1 {
                    assert(order@[start - 1] != before);
                }
            }
            if let Some(after) = self.delta.after {
                if e < end {
                    assert(order@[e] != after);
                }
                if e > end {
                    assert(order@[end as int] != after);
                }
            }
        }
        if start > end || end - start != self.delta.removed.len() {
            return false;
        }
        let mut index: usize = 0;
        while index < self.delta.removed.len()
            invariant
                start <= end <= order@.len(),
                end - start == self.delta.removed@.len(),
                index <= self.delta.removed@.len(),
                forall|k: int| 0 <= k < index ==> order@[start + k] == self.delta.removed@[k],
                forall|s: int, e: int| #[trigger]
                    self.fits(order@, s, e) ==> s == start && e == end,
            decreases self.delta.removed@.len() - index,
        {
            if order[start + index] != self.delta.removed[index] {
                assert(order@.subrange(start as int, end as int)[index as int]
                    != self.delta.removed@[index as int]);
                return false;
            }
            index += 1;
        }
        assert(order@.subrange(start as int, end as int) =~= self.delta.removed@);
        let mut at: usize = 0;
        while at < self.delta.inserted.len()
            invariant
                start <= end <= order@.len(),
                at <= self.delta.inserted@.len(),
                forall|i: int|
                    0 <= i < at ==> !order@.take(start as int).contains(
                        #[trigger] self.delta.inserted@[i],
                    ) && !order@.skip(end as int).contains(self.delta.inserted@[i]),
                forall|s: int, e: int| #[trigger]
                    self.fits(order@, s, e) ==> s == start && e == end,
            decreases self.delta.inserted@.len() - at,
        {
            let id = self.delta.inserted[at];
            if stands_outside(order, start, end, id) {
                return false;
            }
            at += 1;
        }
        assert(self.fits(order@, start as int, end as int));
        true
    }
}

/// An id stands in a list before one place or from another on.
fn stands_outside(order: &Vec<SyntaxNodeId>, start: usize, end: usize, id: SyntaxNodeId) -> (r: bool)
    requires
        start <= end <= order@.len(),
    ensures
        r == (order@.take(start as int).contains(id) || order@.skip(end as int).contains(id)),
{
    let mut index: usize = 0;
    while index < order.len()
        invariant
            index <= order@.len(),
            start <= end <= order@.len(),
            forall|k: int| 0 <= k < index && (k < start || k >= end) ==> #[trigger] order@[k] != id,
        decreases order@.len() - index,
    {
        if order[index] == id && (index < start || index >= end) {
            proof {
                if index < start {
                    assert(order@.take(start as int)[index as int] == id);
                } else {
                    assert(order@.skip(end as int)[index - end] == id);
                }
            }
            return true;
        }
        index += 1;
    }
    proof {
        if order@.take(start as int).contains(id) {
            let k = choose|k: int| 0 <= k < start && order@.take(start as int)[k] == id;
            assert(order@[k] == id);
        }
        if order@.skip(end as int).contains(id) {
            let k = choose|k: int|
                0 <= k < order@.skip(end as int).len() && order@.skip(end as int)[k] == id;
            assert(order@[end + k] == id);
        }
    }
    false
}

/// What one command changed.
pub struct ParseDelta {
    /// The records that came and went.
    pub ast_records: KeyDelta<u64>,
    /// What nodes say.
    pub syntax_payloads: KeyDelta<SyntaxNodeId>,
    /// The parents of nodes.
    pub parents: KeyDelta<SyntaxNodeId>,
    /// The children of nodes, one splice for every parent that changed.
    pub child_splices: Vec<ChildSplice>,
    /// The children of nodes after the command.
    pub child_orders_next: RadixMap<Vec<u64>>,
    /// The root.
    pub roots: OrderedDelta<SyntaxNodeId>,
    /// The tokens that recovery made up.
    pub synthesized_tokens: KeyDelta<SyntheticTokenId>,
    pub diagnostics: KeyDelta<ParseDiagnosticKey>,
    /// The status, where it changed.
    pub status: Option<ParsedStatus>,
    /// The nodes that came, with the records that carry them.
    pub inserted_records: Vec<LineageRecord>,
    /// The nodes that went, with what is needed to take them back.
    pub removed_records: Vec<RemovedRecord>,
    /// The nodes that changed, with the records that carry them.
    pub updated_records: Vec<LineageRecord>,
    /// The live records after the command.
    pub live_records: RadixMap<()>,
}

/// No two splices have one parent.
pub open spec fn one_splice_per_parent(splices: Seq<ChildSplice>) -> bool {
    forall|i: int, j: int|
        0 <= i < j < splices.len() ==> (#[trigger] splices[i]).parent != (
        #[trigger] splices[j]).parent
}

impl ParseDelta {
    /// A change of nothing.
    pub fn empty() -> (r: Self)
        ensures
            r.spec_is_empty(),
            r.valid(),
            r.live_records.wf(),
            r.child_orders_next.wf(),
    {
        ParseDelta {
            ast_records: KeyDelta::empty(),
            syntax_payloads: KeyDelta::empty(),
            parents: KeyDelta::empty(),
            child_splices: Vec::new(),
            child_orders_next: RadixMap::new(),
            roots: OrderedDelta::empty(),
            synthesized_tokens: KeyDelta::empty(),
            diagnostics: KeyDelta::empty(),
            status: None,
            inserted_records: Vec::new(),
            removed_records: Vec::new(),
            updated_records: Vec::new(),
            live_records: RadixMap::new(),
        }
    }

    /// No fact changed.
    pub open spec fn spec_is_empty(self) -> bool {
        &&& self.ast_records.spec_is_empty()
        &&& self.syntax_payloads.spec_is_empty()
        &&& self.parents.spec_is_empty()
        &&& self.child_splices@.len() == 0
        &&& self.roots.removed@.len() == 0
        &&& self.roots.inserted@.len() == 0
        &&& self.synthesized_tokens.spec_is_empty()
        &&& self.diagnostics.spec_is_empty()
        &&& self.status is None
    }

    /// All keys are in order and no parent is spliced twice.
    pub open spec fn valid(self) -> bool {
        &&& self.ast_records.sorted_disjoint()
        &&& self.syntax_payloads.sorted_disjoint()
        &&& self.parents.sorted_disjoint()
        &&& self.synthesized_tokens.sorted_disjoint()
        &&& self.diagnostics.sorted_disjoint()
        &&& one_splice_per_parent(self.child_splices@)
    }

    /// True where no fact changed.
    pub fn is_empty(&self) -> (r: bool)
        ensures
            r == self.spec_is_empty(),
    {
        self.ast_records.is_empty() && self.syntax_payloads.is_empty() && self.parents.is_empty()
            && self.child_splices.len() == 0 && self.roots.removed.len() == 0
            && self.roots.inserted.len() == 0 && self.synthesized_tokens.is_empty()
            && self.diagnostics.is_empty() && self.status.is_none()
    }

    /// True where all keys are in order and no parent is spliced twice.
    pub fn assert_valid(&self) -> (r: bool)
        ensures
            r == self.valid(),
    {
        broadcast use vstd::std_specs::hash::group_hash_axioms;

        if !self.ast_records.assert_sorted_disjoint()
            || !self.syntax_payloads.assert_sorted_disjoint()
            || !self.parents.assert_sorted_disjoint()
            || !self.synthesized_tokens.assert_sorted_disjoint()
            || !self.diagnostics.assert_sorted_disjoint() {
            return false;
        }
        let mut seen: HashSet<u64> = HashSet::new();
        let mut index: usize = 0;
        while index < self.child_splices.len()
            invariant
                index <= self.child_splices@.len(),
                forall|parent: u64|
                    #[trigger] seen@.contains(parent) <==> exists|i: int|
                        0 <= i < index && (#[trigger] self.child_splices@[i]).parent.0 == parent,
                forall|i: int, j: int|
                    0 <= i < j < index ==> (#[trigger] self.child_splices@[i]).parent != (
                    #[trigger] self.child_splices@[j]).parent,
            decreases self.child_splices@.len() - index,
        {
            broadcast use vstd::std_specs::hash::group_hash_axioms;

            let parent: u64 = self.child_splices[index].parent.0;
            let ghost before = seen@;
            if seen.contains(&parent) {
                proof {
                    let i = choose|i: int|
                        0 <= i < index && (#[trigger] self.child_splices@[i]).parent.0 == parent;
                    assert(self.child_splices@[i].parent == self.child_splices@[
                        index as int
                    ].parent);
                }
                return false;
            }
            seen.insert(parent);
            proof {
                assert forall|i: int, j: int| 0 <= i < j < index + 1 implies (
                #[trigger] self.child_splices@[i]).parent != (
                #[trigger] self.child_splices@[j]).parent by {
                    if j == index {
                        assert(!before.contains(parent));
                        if self.child_splices@[i].parent.0 == parent {
                            assert(before.contains(parent));
                        }
                    }
                }
                assert forall|other: u64|
                    #[trigger] seen@.contains(other) <==> exists|i: int|
                        0 <= i < index + 1 && (#[trigger] self.child_splices@[i]).parent.0
                            == other by {
                    if other == parent {
                        assert(self.child_splices@[index as int].parent.0 == other);
                    } else {
                        if before.contains(other) {
                            let i = choose|i: int|
                                0 <= i < index && (#[trigger] self.child_splices@[i]).parent.0
                                    == other;
                            assert(self.child_splices@[i].parent.0 == other);
                        }
                        if exists|i: int|
                            0 <= i < index + 1 && (#[trigger] self.child_splices@[i]).parent.0
                                == other {
                            let i = choose|i: int|
                                0 <= i < index + 1 && (#[trigger] self.child_splices@[i]).parent.0
                                    == other;
                            assert(i < index);
                            assert(before.contains(other));
                        }
                    }
                }
            }
            index += 1;
        }
        true
    }
}

} // verus!
