//! Sorting by a verified total order, and the sets that sorted vectors hold.

use vstd::prelude::*;
use vstd::relations::*;
use vstd::seq_lib::*;

verus! {

/// Values with a total order that verified code can test.
pub trait Ordered: Copy + Sized {
    /// True where `self` comes before `other` or equals it.
    spec fn le_spec(self, other: Self) -> bool;

    proof fn lemma_total()
        ensures
            total_ordering(|a: Self, b: Self| a.le_spec(b)),
    ;

    fn le_exec(&self, other: &Self) -> (r: bool)
        ensures
            r == self.le_spec(*other),
    ;
}

/// The order of an [`Ordered`] type as a relation.
pub open spec fn order<T: Ordered>() -> spec_fn(T, T) -> bool {
    |a: T, b: T| a.le_spec(b)
}

/// `values` arranged in ascending order.
pub open spec fn ascending<T: Ordered>(values: Seq<T>) -> Seq<T> {
    values.sort_by(order::<T>())
}

/// Every value comes before, and differs from, all later ones.
pub open spec fn strictly_ascending<T: Ordered>(values: Seq<T>) -> bool {
    forall|i: int, j: int|
        0 <= i < j < values.len() ==> (#[trigger] values[i]).le_spec(#[trigger] values[j])
            && values[i] != values[j]
}

impl Ordered for u64 {
    open spec fn le_spec(self, other: Self) -> bool {
        self <= other
    }

    proof fn lemma_total() {
    }

    fn le_exec(&self, other: &Self) -> (r: bool) {
        *self <= *other
    }
}

impl Ordered for usize {
    open spec fn le_spec(self, other: Self) -> bool {
        self <= other
    }

    proof fn lemma_total() {
    }

    fn le_exec(&self, other: &Self) -> (r: bool) {
        *self <= *other
    }
}

/// Putting a value in adds it to the multiset of the values.
proof fn lemma_insert_multiset<T>(values: Seq<T>, at: int, value: T)
    requires
        0 <= at <= values.len(),
    ensures
        values.insert(at, value).to_multiset() == values.to_multiset().insert(value),
{
    broadcast use group_to_multiset_ensures;

    let head = values.take(at);
    let tail = values.skip(at);
    assert(values.insert(at, value) =~= head.push(value) + tail);
    assert(values =~= head + tail);
    lemma_multiset_commutative(head.push(value), tail);
    lemma_multiset_commutative(head, tail);
    assert(values.insert(at, value).to_multiset() =~= values.to_multiset().insert(value));
}

/// The values in ascending order, by insertion.
pub fn sorted<T: Ordered>(values: &Vec<T>) -> (out: Vec<T>)
    ensures
        out@ == ascending(values@),
        sorted_by(out@, order::<T>()),
        out@.to_multiset() == values@.to_multiset(),
        out@.len() == values@.len(),
{
    broadcast use group_to_multiset_ensures;

    proof {
        T::lemma_total();
    }
    let mut out: Vec<T> = Vec::new();
    let mut index: usize = 0;
    assert(values@.take(0) =~= Seq::<T>::empty());
    while index < values.len()
        invariant
            index <= values.len(),
            out@.len() == index,
            total_ordering(order::<T>()),
            sorted_by(out@, order::<T>()),
            out@.to_multiset() == values@.take(index as int).to_multiset(),
        decreases values.len() - index,
    {
        broadcast use group_to_multiset_ensures;

        let value = values[index];
        let mut at: usize = out.len();
        while at > 0 && !out[at - 1].le_exec(&value)
            invariant
                at <= out.len(),
                total_ordering(order::<T>()),
                sorted_by(out@, order::<T>()),
                forall|k: int| at <= k < out@.len() ==> value.le_spec(#[trigger] out@[k]),
            decreases at,
        {
            proof {
                let leq = order::<T>();
                assert(leq(out@[at as int - 1], value) || leq(value, out@[at as int - 1]));
            }
            at = at - 1;
        }
        proof {
            let leq = order::<T>();
            let before = out@;
            let after = before.insert(at as int, value);
            assert forall|i: int, j: int| 0 <= i < j < after.len() implies #[trigger] leq(
                after[i],
                after[j],
            ) by {
                if at > 0 {
                    assert forall|k: int| 0 <= k < at implies leq(#[trigger] before[k], value) by {
                        if k < at - 1 {
                            assert(leq(before[k], before[at as int - 1]));
                        }
                        assert(leq(before[at as int - 1], value));
                    }
                }
                if i < at && j > at {
                    assert(leq(before[i], before[j - 1]));
                } else if i < at && j < at {
                    assert(leq(before[i], before[j]));
                } else if i > at {
                    assert(leq(before[i - 1], before[j - 1]));
                } else if i == at {
                    assert(value.le_spec(before[j - 1]));
                } else {
                    assert(leq(before[i], value));
                }
            }
            lemma_insert_multiset(before, at as int, value);
            assert(values@.take(index as int + 1) =~= values@.take(index as int).push(value));
        }
        out.insert(at, value);
        index += 1;
    }
    proof {
        assert(values@.take(values@.len() as int) =~= values@);
        values@.lemma_sort_by_ensures(order::<T>());
        lemma_sorted_unique(out@, ascending(values@), order::<T>());
    }
    out
}

/// The distinct values of an ascending vector, in order.
pub fn deduped<T: Ordered>(values: &Vec<T>) -> (out: Vec<T>)
    requires
        sorted_by(values@, order::<T>()),
    ensures
        strictly_ascending(out@),
        out@.to_set() == values@.to_set(),
{
    proof {
        T::lemma_total();
    }
    let mut out: Vec<T> = Vec::new();
    let mut index: usize = 0;
    while index < values.len()
        invariant
            index <= values.len(),
            total_ordering(order::<T>()),
            sorted_by(values@, order::<T>()),
            strictly_ascending(out@),
            index == 0 ==> out@.len() == 0,
            index > 0 ==> out@.len() > 0 && out@.last() == values@[index as int - 1],
            forall|k: int| 0 <= k < index ==> out@.contains(#[trigger] values@[k]),
            forall|k: int| 0 <= k < out@.len() ==> values@.contains(#[trigger] out@[k]),
        decreases values.len() - index,
    {
        let value = values[index];
        let fresh = if index == 0 {
            true
        } else {
            !value.le_exec(&values[index - 1])
        };
        let ghost before = out@;
        if fresh {
            proof {
                let leq = order::<T>();
                if index > 0 {
                    assert(leq(values@[index as int - 1], value));
                    assert forall|k: int| 0 <= k < before.len() implies leq(
                        #[trigger] before[k],
                        value,
                    ) && before[k] != value by {
                        let last = before.len() - 1;
                        if k < last {
                            assert(before[k].le_spec(before[last]));
                            assert(leq(before[k], before[last]));
                        }
                        assert(leq(before[k], value));
                    }
                }
            }
            out.push(value);
            proof {
                assert(out@.last() == value);
                assert forall|i: int, j: int| 0 <= i < j < out@.len() implies (
                #[trigger] out@[i]).le_spec(#[trigger] out@[j]) && out@[i] != out@[j] by {
                    assert(out@[i] == before[i]);
                    if j < before.len() {
                        assert(out@[j] == before[j]);
                    } else {
                        let leq = order::<T>();
                        assert(index > 0);
                        assert(leq(before[i], value));
                    }
                }
                assert forall|k: int| 0 <= k < index + 1 implies out@.contains(
                    #[trigger] values@[k],
                ) by {
                    if k < index {
                        let at = choose|at: int| 0 <= at < before.len() && before[at] == values@[k];
                        assert(out@[at] == values@[k]);
                    } else {
                        assert(out@[out@.len() - 1] == values@[k]);
                    }
                }
            }
        } else {
            proof {
                let leq = order::<T>();
                assert(leq(values@[index as int - 1], value));
                assert(leq(value, values@[index as int - 1]));
                assert(value == values@[index as int - 1]);
            }
        }
        index += 1;
    }
    proof {
        assert forall|value: T| out@.to_set().contains(value) == values@.to_set().contains(
            value,
        ) by {
            if values@.contains(value) {
                let at = choose|at: int| 0 <= at < values@.len() && values@[at] == value;
                assert(out@.contains(values@[at]));
            }
            if out@.contains(value) {
                let at = choose|at: int| 0 <= at < out@.len() && out@[at] == value;
                assert(values@.contains(out@[at]));
            }
        }
        assert(out@.to_set() =~= values@.to_set());
    }
    out
}

/// The values of a set in ascending order.
pub open spec fn distinct_sorted<T: Ordered>(values: Set<T>) -> Seq<T> {
    choose|list: Seq<T>| #[trigger] strictly_ascending(list) && list.to_set() == values
}

/// The distinct values in ascending order.
pub fn sorted_distinct<T: Ordered>(values: &Vec<T>) -> (out: Vec<T>)
    ensures
        strictly_ascending(out@),
        out@.to_set() == values@.to_set(),
        out@ == distinct_sorted(values@.to_set()),
{
    let all = sorted(values);
    let out = deduped(&all);
    proof {
        broadcast use group_to_multiset_ensures;

        assert forall|value: T| all@.contains(value) == values@.contains(value) by {
            assert(all@.to_multiset().count(value) > 0 <==> all@.contains(value));
            assert(values@.to_multiset().count(value) > 0 <==> values@.contains(value));
        }
        assert(all@.to_set() =~= values@.to_set());
        assert(strictly_ascending(out@) && out@.to_set() == values@.to_set());
        lemma_strictly_ascending_unique(out@, distinct_sorted(values@.to_set()));
    }
    out
}

/// A strictly ascending sequence is determined by the values it holds.
pub proof fn lemma_strictly_ascending_unique<T: Ordered>(a: Seq<T>, b: Seq<T>)
    requires
        strictly_ascending(a),
        strictly_ascending(b),
        a.to_set() == b.to_set(),
    ensures
        a == b,
{
    broadcast use group_to_multiset_ensures;

    T::lemma_total();
    let leq = order::<T>();
    assert(sorted_by(a, leq));
    assert(sorted_by(b, leq));
    assert(a.no_duplicates());
    assert(b.no_duplicates());
    a.lemma_multiset_has_no_duplicates();
    b.lemma_multiset_has_no_duplicates();
    assert forall|value: T| a.to_multiset().count(value) == b.to_multiset().count(value) by {
        assert(a.to_set().contains(value) == a.contains(value));
        assert(b.to_set().contains(value) == b.contains(value));
        assert(a.contains(value) == b.contains(value));
        if a.contains(value) {
            assert(a.to_multiset().contains(value));
            assert(b.to_multiset().contains(value));
        } else {
            assert(a.to_multiset().count(value) == 0);
            assert(b.to_multiset().count(value) == 0);
        }
    }
    assert(a.to_multiset() =~= b.to_multiset());
    lemma_sorted_unique(a, b, leq);
}

/// A sorted list without its repetitions.
spec fn thinned<T: Ordered>(list: Seq<T>) -> Seq<T>
    decreases list.len(),
{
    if list.len() <= 1 {
        list
    } else if list[list.len() - 1] == list[list.len() - 2] {
        thinned(list.drop_last())
    } else {
        thinned(list.drop_last()).push(list.last())
    }
}

proof fn lemma_thinned<T: Ordered>(list: Seq<T>)
    requires
        sorted_by(list, order::<T>()),
    ensures
        strictly_ascending(thinned(list)),
        thinned(list).to_set() == list.to_set(),
        list.len() > 0 ==> thinned(list).len() > 0 && thinned(list).last() == list.last(),
    decreases list.len(),
{
    T::lemma_total();
    let leq = order::<T>();
    if list.len() <= 1 {
    } else {
        let rest = list.drop_last();
        let last = list.last();
        assert(sorted_by(rest, leq)) by {
            assert forall|i: int, j: int| 0 <= i < j < rest.len() implies #[trigger] leq(
                rest[i],
                rest[j],
            ) by {
                assert(leq(list[i], list[j]));
            }
        }
        lemma_thinned(rest);
        let thin = thinned(rest);
        assert(rest.last() == list[list.len() - 2]);
        if last == rest.last() {
            assert(list.to_set() =~= rest.to_set()) by {
                assert forall|x: T| list.contains(x) == rest.contains(x) by {
                    if list.contains(x) {
                        let k = choose|k: int| 0 <= k < list.len() && list[k] == x;
                        if k < rest.len() {
                            assert(rest[k] == x);
                        } else {
                            assert(rest[rest.len() - 1] == x);
                        }
                    }
                    if rest.contains(x) {
                        let k = choose|k: int| 0 <= k < rest.len() && rest[k] == x;
                        assert(list[k] == x);
                    }
                }
            }
        } else {
            let out = thin.push(last);
            assert forall|i: int, j: int| 0 <= i < j < out.len() implies (
            #[trigger] out[i]).le_spec(#[trigger] out[j]) && out[i] != out[j] by {
                if j == thin.len() {
                    assert(thin.to_set().contains(thin[i]));
                    assert(rest.contains(thin[i]));
                    let k = choose|k: int| 0 <= k < rest.len() && rest[k] == thin[i];
                    assert(leq(list[k], list[list.len() - 1]));
                    assert(leq(rest[rest.len() - 1], last)) by {
                        assert(leq(list[list.len() - 2], list[list.len() - 1]));
                    }
                    if k < rest.len() - 1 {
                        assert(leq(list[k], list[list.len() - 2]));
                        if thin[i] == last {
                            assert(leq(last, rest.last()));
                        }
                    }
                }
            }
            assert(out.to_set() =~= list.to_set()) by {
                assert forall|x: T| out.contains(x) == list.contains(x) by {
                    assert(thin.to_set().contains(x) == rest.to_set().contains(x));
                    if out.contains(x) {
                        let k = choose|k: int| 0 <= k < out.len() && out[k] == x;
                        if k < thin.len() {
                            assert(thin[k] == x);
                            assert(rest.contains(x));
                            let m = choose|m: int| 0 <= m < rest.len() && rest[m] == x;
                            assert(list[m] == x);
                        } else {
                            assert(list[list.len() - 1] == x);
                        }
                    }
                    if list.contains(x) {
                        let k = choose|k: int| 0 <= k < list.len() && list[k] == x;
                        if k < rest.len() {
                            assert(rest[k] == x);
                            assert(thin.contains(x));
                            let m = choose|m: int| 0 <= m < thin.len() && thin[m] == x;
                            assert(out[m] == x);
                        } else {
                            assert(out[thin.len() as int] == x);
                        }
                    }
                }
            }
        }
    }
}

/// The values of any list can be arranged in ascending order.
pub proof fn lemma_distinct_sorted<T: Ordered>(values: Seq<T>)
    ensures
        strictly_ascending(distinct_sorted(values.to_set())),
        distinct_sorted(values.to_set()).to_set() == values.to_set(),
{
    broadcast use group_to_multiset_ensures;

    T::lemma_total();
    let all = ascending(values);
    values.lemma_sort_by_ensures(order::<T>());
    lemma_thinned(all);
    assert(all.to_set() =~= values.to_set()) by {
        assert forall|x: T| all.contains(x) == values.contains(x) by {
            assert(all.to_multiset().count(x) == values.to_multiset().count(x));
        }
    }
    assert(strictly_ascending(thinned(all)) && thinned(all).to_set() == values.to_set());
}

} // verus!
