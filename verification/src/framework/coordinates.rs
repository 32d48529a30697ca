//! Coordinate maps: where the unchanged bytes of one revision are found in the
//! next.

use std::ops::Range;
use vstd::prelude::*;
use vstd::utf8::*;

use crate::framework::source::{
    in_order, in_place, lemma_spliced_len, shift_after, spliced, text_splices, SourceSplice,
    TextSplice,
};

verus! {

/// A maximal unchanged region: equal old and new length and one offset,
/// referring only to bytes copied verbatim from the text before.
#[derive(Debug, PartialEq, Eq)]
pub struct UnchangedIsland {
    pub old: Range<usize>,
    pub new: Range<usize>,
    pub delta: isize,
}

/// Sorted islands, apart from each other in both coordinate spaces, with the
/// arrays of their starts.
#[derive(Debug)]
pub struct SourceCoordinateMap {
    pub islands: Vec<UnchangedIsland>,
    pub old_starts: Vec<usize>,
    pub new_starts: Vec<usize>,
}

/// The end of the old range before the `i`-th splice.
pub open spec fn old_cursor(splices: Seq<SourceSplice>, i: int) -> int {
    if i == 0 {
        0
    } else {
        splices[i - 1].old_range.end as int
    }
}

/// The end of the new range before the `i`-th splice.
pub open spec fn new_cursor(splices: Seq<SourceSplice>, i: int) -> int {
    if i == 0 {
        0
    } else {
        splices[i - 1].new_range.end as int
    }
}

/// The `i`-th splice follows the one before it in both spaces, with as much
/// unchanged text before it in the old space as in the new one.
pub open spec fn follows(splices: Seq<SourceSplice>, i: int) -> bool {
    let splice = splices[i];
    &&& old_cursor(splices, i) <= splice.old_range.start <= splice.old_range.end
    &&& new_cursor(splices, i) <= splice.new_range.start <= splice.new_range.end
    &&& splice.old_range.start - old_cursor(splices, i) == splice.new_range.start - new_cursor(
        splices,
        i,
    )
}

/// The splices lead from a text of `old_len` bytes to one of `new_len`.
pub open spec fn leads(splices: Seq<SourceSplice>, old_len: int, new_len: int) -> bool {
    let n = splices.len() as int;
    &&& forall|i: int| 0 <= i < n ==> #[trigger] follows(splices, i)
    &&& old_cursor(splices, n) <= old_len
    &&& new_len - new_cursor(splices, n) == old_len - old_cursor(splices, n)
}

/// The signed distance from `old_start` to `new_start`, held inside `isize`.
pub open spec fn signed_distance(new_start: int, old_start: int) -> int {
    let distance = new_start - old_start;
    if distance > isize::MAX {
        isize::MAX as int
    } else if distance < -isize::MAX {
        -isize::MAX as int
    } else {
        distance
    }
}

/// The island of `len` bytes at the given starts.
pub open spec fn island(old_start: int, new_start: int, len: int) -> UnchangedIsland {
    UnchangedIsland {
        old: Range { start: old_start as usize, end: (old_start + len) as usize },
        new: Range { start: new_start as usize, end: (new_start + len) as usize },
        delta: signed_distance(new_start, old_start) as isize,
    }
}

/// The islands before the first `i` splices.
pub open spec fn islands_before(splices: Seq<SourceSplice>, i: int) -> Seq<UnchangedIsland>
    decreases i,
{
    if i <= 0 {
        Seq::empty()
    } else {
        let before = islands_before(splices, i - 1);
        let len = splices[i - 1].old_range.start - old_cursor(splices, i - 1);
        if len > 0 {
            before.push(island(old_cursor(splices, i - 1), new_cursor(splices, i - 1), len))
        } else {
            before
        }
    }
}

/// All islands between the splices of a text of `old_len` bytes.
pub open spec fn islands_of(splices: Seq<SourceSplice>, old_len: int) -> Seq<UnchangedIsland> {
    let n = splices.len() as int;
    let before = islands_before(splices, n);
    let len = old_len - old_cursor(splices, n);
    if len > 0 {
        before.push(island(old_cursor(splices, n), new_cursor(splices, n), len))
    } else {
        before
    }
}

impl UnchangedIsland {
    /// The island covers the old coordinate `at`.
    pub open spec fn covers(self, at: int) -> bool {
        self.old.start <= at < self.old.end
    }

    /// The island is not empty and as long in the new space as in the old one.
    pub open spec fn wf(self) -> bool {
        &&& self.old.start < self.old.end
        &&& self.new.start < self.new.end
        &&& self.new.end - self.new.start == self.old.end - self.old.start
        &&& self.delta == signed_distance(self.new.start as int, self.old.start as int)
    }
}

impl SourceCoordinateMap {
    /// The islands are sorted and apart in both spaces, and the start arrays
    /// list their starts.
    pub open spec fn wf(self) -> bool {
        &&& self.old_starts@.len() == self.islands@.len()
        &&& self.new_starts@.len() == self.islands@.len()
        &&& forall|i: int|
            0 <= i < self.islands@.len() ==> (#[trigger] self.islands@[i]).wf()
                && self.old_starts@[i] == self.islands@[i].old.start && self.new_starts@[i]
                == self.islands@[i].new.start
        &&& forall|i: int, j: int|
            0 <= i < j < self.islands@.len() ==> (#[trigger] self.islands@[i]).old.end <= (
            #[trigger] self.islands@[j]).old.start && self.islands@[i].new.end
                <= self.islands@[j].new.start
    }

    /// Where the old coordinate `at` is found in the new space, and in which
    /// island.
    pub open spec fn mapped(self, at: int, place: (usize, usize)) -> bool {
        &&& place.1 < self.islands@.len()
        &&& self.islands@[place.1 as int].covers(at)
        &&& place.0 == self.islands@[place.1 as int].new.start + (at
            - self.islands@[place.1 as int].old.start)
    }

    /// The map of a text that was loaded afresh: nothing is unchanged.
    pub fn empty() -> (r: Self)
        ensures
            r.wf(),
            r.islands@ == Seq::<UnchangedIsland>::empty(),
    {
        SourceCoordinateMap { islands: Vec::new(), old_starts: Vec::new(), new_starts: Vec::new() }
    }

    /// The signed distance between two starts.
    pub fn signed_offset(new_start: usize, old_start: usize) -> (r: isize)
        ensures
            r == signed_distance(new_start as int, old_start as int),
    {
        if new_start >= old_start {
            let distance: usize = new_start - old_start;
            if distance > isize::MAX as usize {
                isize::MAX
            } else {
                distance as isize
            }
        } else {
            let distance: usize = old_start - new_start;
            if distance > isize::MAX as usize {
                -isize::MAX
            } else {
                -(distance as isize)
            }
        }
    }

    /// Puts one island behind the others.
    fn push_island(&mut self, old_start: usize, new_start: usize, len: usize)
        requires
            old(self).wf(),
            len > 0,
            old_start + len <= usize::MAX,
            new_start + len <= usize::MAX,
            forall|i: int|
                0 <= i < old(self).islands@.len() ==> (#[trigger] old(self).islands@[i]).old.end
                    <= old_start && old(self).islands@[i].new.end <= new_start,
        ensures
            final(self).wf(),
            final(self).islands@ == old(self).islands@.push(
                island(old_start as int, new_start as int, len as int),
            ),
    {
        let delta = Self::signed_offset(new_start, old_start);
        self.islands.push(
            UnchangedIsland {
                old: old_start..old_start + len,
                new: new_start..new_start + len,
                delta,
            },
        );
        self.old_starts.push(old_start);
        self.new_starts.push(new_start);
        proof {
            assert forall|i: int| 0 <= i < self.islands@.len() implies (
            #[trigger] self.islands@[i]).wf() && self.old_starts@[i] == self.islands@[i].old.start
                && self.new_starts@[i] == self.islands@[i].new.start by {
                if i < old(self).islands@.len() {
                    assert(self.islands@[i] == old(self).islands@[i]);
                }
            }
            assert forall|i: int, j: int| 0 <= i < j < self.islands@.len() implies (
            #[trigger] self.islands@[i]).old.end <= (#[trigger] self.islands@[j]).old.start
                && self.islands@[i].new.end <= self.islands@[j].new.start by {
                assert(self.islands@[i] == old(self).islands@[i]);
                if j < old(self).islands@.len() {
                    assert(self.islands@[j] == old(self).islands@[j]);
                }
            }
        }
    }

    /// Builds the islands between normalized splices.
    pub fn build(old_len: usize, new_len: usize, splices: &[SourceSplice]) -> (r: Self)
        requires
            leads(splices@, old_len as int, new_len as int),
        ensures
            r.wf(),
            r.islands@ == islands_of(splices@, old_len as int),
            forall|i: int|
                0 <= i < r.islands@.len() ==> (#[trigger] r.islands@[i]).old.end <= old_len
                    && r.islands@[i].new.end <= new_len,
    {
        let mut map = Self::empty();
        let mut old_at: usize = 0;
        let mut new_at: usize = 0;
        let mut index: usize = 0;
        while index < splices.len()
            invariant
                index <= splices@.len(),
                leads(splices@, old_len as int, new_len as int),
                map.wf(),
                map.islands@ == islands_before(splices@, index as int),
                old_at == old_cursor(splices@, index as int),
                new_at == new_cursor(splices@, index as int),
                forall|i: int|
                    0 <= i < map.islands@.len() ==> (#[trigger] map.islands@[i]).old.end <= old_at
                        && map.islands@[i].new.end <= new_at,
            decreases splices@.len() - index,
        {
            let splice = &splices[index];
            assert(follows(splices@, index as int));
            if splice.old_range.start > old_at {
                map.push_island(old_at, new_at, splice.old_range.start - old_at);
            }
            old_at = splice.old_range.end;
            new_at = splice.new_range.end;
            index += 1;
        }
        if old_at < old_len {
            map.push_island(old_at, new_at, old_len - old_at);
        }
        map
    }

    /// Maps an old coordinate into the new space where it lies inside one
    /// island; the gaps between the islands never map.
    pub fn map_old_to_new(&self, at: usize) -> (r: Option<(usize, usize)>)
        requires
            self.wf(),
        ensures
            r is Some ==> self.mapped(at as int, r->Some_0),
            r is None ==> forall|i: int|
                0 <= i < self.islands@.len() ==> !(#[trigger] self.islands@[i]).covers(at as int),
    {
        let mut low: usize = 0;
        let mut high: usize = self.old_starts.len();
        while low < high
            invariant
                self.wf(),
                low <= high <= self.islands@.len(),
                forall|i: int| 0 <= i < low ==> (#[trigger] self.islands@[i]).old.start <= at,
                forall|i: int|
                    high <= i < self.islands@.len() ==> (#[trigger] self.islands@[i]).old.start
                        > at,
            decreases high - low,
        {
            let middle: usize = low + (high - low) / 2;
            assert(self.old_starts@[middle as int] == self.islands@[middle as int].old.start);
            if self.old_starts[middle] <= at {
                assert forall|i: int| 0 <= i < middle + 1 implies (
                #[trigger] self.islands@[i]).old.start <= at by {
                    if i < middle {
                        assert(self.islands@[i].wf());
                        assert(self.islands@[i].old.end <= self.islands@[middle as int].old.start);
                    }
                }
                low = middle + 1;
            } else {
                assert forall|i: int| middle <= i < self.islands@.len() implies (
                #[trigger] self.islands@[i]).old.start > at by {
                    if i > middle {
                        assert(self.islands@[middle as int].wf());
                        assert(self.islands@[middle as int].old.end <= self.islands@[i].old.start);
                    }
                }
                high = middle;
            }
        }
        if low == 0 {
            return None;
        }
        let index: usize = low - 1;
        let found = &self.islands[index];
        assert(self.islands@[index as int].wf());
        if at < found.old.end {
            Some((found.new.start + (at - found.old.start), index))
        } else {
            assert forall|i: int| 0 <= i < self.islands@.len() implies !(
            #[trigger] self.islands@[i]).covers(at as int) by {
                if i < index {
                    assert(self.islands@[i].old.end <= self.islands@[index as int].old.start);
                }
            }
            None
        }
    }
}

/// At most one place maps from an old coordinate.
pub proof fn lemma_mapped_unique(
    map: SourceCoordinateMap,
    at: int,
    a: (usize, usize),
    b: (usize, usize),
)
    requires
        map.wf(),
        map.mapped(at, a),
        map.mapped(at, b),
    ensures
        a == b,
{
    if a.1 < b.1 {
        assert(map.islands@[a.1 as int].old.end <= map.islands@[b.1 as int].old.start);
    } else if b.1 < a.1 {
        assert(map.islands@[b.1 as int].old.end <= map.islands@[a.1 as int].old.start);
    }
}

/// Splices in order lead from the old text to the text that they give.
pub proof fn lemma_in_order_leads(
    bytes: Seq<u8>,
    splices: Seq<SourceSplice>,
    inserted: Seq<String>,
)
    requires
        splices.len() == inserted.len(),
        in_order(text_splices(splices, inserted), bytes.len() as int),
    ensures
        leads(
            splices,
            bytes.len() as int,
            spliced(bytes, text_splices(splices, inserted)).len() as int,
        ),
{
    let list = text_splices(splices, inserted);
    lemma_spliced_len(bytes, list);
    assert forall|i: int| 0 <= i < splices.len() implies #[trigger] follows(splices, i) by {
        assert(in_place(list, i, bytes.len() as int));
        if i > 0 {
            assert(list.take(i).last() == list[i - 1]);
            assert(in_place(list, i - 1, bytes.len() as int));
        }
    }
    if splices.len() > 0 {
        assert(in_place(list, list.len() - 1, bytes.len() as int));
    }
}

/// Every byte of the unchanged text before the `i`-th splice is found again at
/// the same distance in the spliced text.
proof fn lemma_unchanged_bytes(bytes: Seq<u8>, list: Seq<TextSplice>, i: int, at: int)
    requires
        in_order(list, bytes.len() as int),
        0 <= i <= list.len(),
        (if i == 0 {
            0
        } else {
            list[i - 1].old_end
        }) <= at < (if i == list.len() {
            bytes.len() as int
        } else {
            list[i].old_start
        }),
    ensures
        0 <= at + shift_after(list.take(i)) < spliced(bytes, list).len(),
        spliced(bytes, list)[at + shift_after(list.take(i))] == bytes[at],
    decreases list.len(),
{
    if list.len() == 0 {
        assert(list.take(i) =~= list);
    } else {
        let last = list.last();
        let rest = list.drop_last();
        let short = bytes.take(last.old_start);
        assert(in_place(list, list.len() - 1, bytes.len() as int));
        assert(in_order(rest, last.old_start)) by {
            crate::framework::source::lemma_in_order_prefix(list, bytes.len() as int);
        }
        lemma_spliced_len(short, rest);
        assert(list.take(list.len() - 1) =~= rest);
        lemma_spliced_len(bytes, list);
        let head = spliced(short, rest);
        let middle = encode_utf8(last.text);
        let tail = bytes.skip(last.old_end);
        assert(spliced(bytes, list) == head + middle + tail);
        if i == list.len() {
            assert(list.take(i) =~= list);
            let place = at + shift_after(list);
            assert(place == head.len() + middle.len() + (at - last.old_end));
            assert((head + middle + tail)[place] == tail[at - last.old_end]);
            assert(tail[at - last.old_end] == bytes[at]);
        } else {
            assert(rest.take(i) =~= list.take(i));
            lemma_unchanged_bytes(short, rest, i, at);
            let place = at + shift_after(list.take(i));
            assert(in_place(list, i, bytes.len() as int));
            if i < list.len() - 1 {
                crate::framework::source::lemma_in_order_starts(
                    list,
                    i,
                    list.len() - 1,
                    bytes.len() as int,
                );
            }
            if i > 0 {
                assert(in_place(list, i - 1, bytes.len() as int));
            }
            assert((head + middle + tail)[place] == head[place]);
            assert(short[at] == bytes[at]);
        }
    }
}

/// An island lies between two neighbouring splices, or after the last.
proof fn lemma_island_gap(splices: Seq<SourceSplice>, n: int, k: int) -> (i: int)
    requires
        0 <= n <= splices.len(),
        forall|j: int| 0 <= j < splices.len() ==> #[trigger] follows(splices, j),
        0 <= k < islands_before(splices, n).len(),
    ensures
        0 <= i < n,
        islands_before(splices, n)[k].old.start == old_cursor(splices, i),
        islands_before(splices, n)[k].new.start == new_cursor(splices, i),
        islands_before(splices, n)[k].old.end == splices[i].old_range.start,
    decreases n,
{
    let before = islands_before(splices, n - 1);
    assert(follows(splices, n - 1));
    if k < before.len() {
        lemma_island_gap(splices, n - 1, k)
    } else {
        n - 1
    }
}

/// What the coordinate map of a revision maps is unchanged: the byte at the new
/// place is the byte that was at the old one.
pub proof fn lemma_mapped_bytes_unchanged(
    bytes: Seq<u8>,
    splices: Seq<SourceSplice>,
    inserted: Seq<String>,
    map: SourceCoordinateMap,
    at: int,
    place: (usize, usize),
)
    requires
        splices.len() == inserted.len(),
        bytes.len() <= usize::MAX,
        in_order(text_splices(splices, inserted), bytes.len() as int),
        map.islands@ == islands_of(splices, bytes.len() as int),
        map.mapped(at, place),
    ensures
        place.0 < spliced(bytes, text_splices(splices, inserted)).len(),
        spliced(bytes, text_splices(splices, inserted))[place.0 as int] == bytes[at],
{
    let list = text_splices(splices, inserted);
    let n = splices.len() as int;
    let k = place.1 as int;
    lemma_in_order_leads(bytes, splices, inserted);
    let before = islands_before(splices, n);
    let i = if k < before.len() {
        lemma_island_gap(splices, n, k)
    } else {
        n
    };
    if i < n {
        assert(follows(splices, i));
    }
    if i > 0 {
        assert(list.take(i).last() == list[i - 1]);
    }
    lemma_unchanged_bytes(bytes, list, i, at);
}

/// Every unchanged byte is mapped: an old coordinate outside all splices lies
/// in an island.
pub proof fn lemma_unchanged_is_mapped(splices: Seq<SourceSplice>, old_len: int, new_len: int, at: int)
    requires
        leads(splices, old_len, new_len),
        0 <= at < old_len <= usize::MAX,
        forall|i: int|
            0 <= i < splices.len() ==> !((#[trigger] splices[i]).old_range.start <= at
                < splices[i].old_range.end),
    ensures
        exists|k: int|
            0 <= k < islands_of(splices, old_len).len() && (#[trigger] islands_of(
                splices,
                old_len,
            )[k]).covers(at),
{
    let n = splices.len() as int;
    if at >= old_cursor(splices, n) {
        let k = islands_before(splices, n).len() as int;
        assert(islands_of(splices, old_len)[k].covers(at));
    } else {
        let k = lemma_mapped_before(splices, n, at);
        assert(islands_of(splices, old_len)[k] == islands_before(splices, n)[k]);
    }
}

proof fn lemma_mapped_before(splices: Seq<SourceSplice>, n: int, at: int) -> (k: int)
    requires
        0 <= n <= splices.len(),
        forall|j: int| 0 <= j < splices.len() ==> #[trigger] follows(splices, j),
        0 <= at < old_cursor(splices, n),
        forall|i: int|
            0 <= i < splices.len() ==> !((#[trigger] splices[i]).old_range.start <= at
                < splices[i].old_range.end),
    ensures
        0 <= k < islands_before(splices, n).len(),
        islands_before(splices, n)[k].covers(at),
    decreases n,
{
    assert(n > 0);
    assert(follows(splices, n - 1));
    if at >= old_cursor(splices, n - 1) {
        islands_before(splices, n - 1).len() as int
    } else {
        lemma_mapped_before(splices, n - 1, at)
    }
}

} // verus!
