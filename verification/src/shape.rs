//! Shapes: immutable trees of integers with shared subtrees, a fingerprint, and
//! a total order. Two shapes are the same exactly when they hold the same
//! integers in the same places.

use std::sync::Arc;
use vstd::prelude::*;
use vstd::relations::*;
use vstd::seq_lib::*;

use crate::utils::{FNV_OFFSET, FNV_PRIME};

verus! {

/// A tree of integers.
#[derive(Debug, PartialEq, Eq)]
pub struct Shape {
    pub fingerprint: u64,
    pub tag: u8,
    pub label: u64,
    pub extra: u64,
    pub children: Arc<Vec<Shape>>,
}

/// What a shape says, apart from its fingerprint.
#[verifier::ext_equal]
pub ghost struct ShapeView {
    pub tag: u8,
    pub label: u64,
    pub extra: u64,
    pub children: Seq<ShapeView>,
}

impl Shape {
    /// The tree that the shape stands for.
    pub open spec fn view(self) -> ShapeView
        decreases self, 0nat,
    {
        ShapeView {
            tag: self.tag,
            label: self.label,
            extra: self.extra,
            children: shape_views(self.children@, self.children@.len()),
        }
    }

    /// The fingerprints of the shape and of all shapes below it are right.
    pub open spec fn wf(self) -> bool
        decreases self, 0nat,
    {
        &&& self.fingerprint == shape_hash(self.view())
        &&& shapes_wf(self.children@, self.children@.len())
    }
}

/// The trees that the first `n` shapes stand for.
pub open spec fn shape_views(list: Seq<Shape>, n: nat) -> Seq<ShapeView>
    decreases list, n,
    when n <= list.len()
{
    if n == 0 {
        Seq::empty()
    } else {
        shape_views(list, (n - 1) as nat).push(list[n - 1].view())
    }
}

/// The first `n` shapes carry right fingerprints.
pub open spec fn shapes_wf(list: Seq<Shape>, n: nat) -> bool
    decreases list, n,
    when n <= list.len()
{
    if n == 0 {
        true
    } else {
        shapes_wf(list, (n - 1) as nat) && list[n - 1].wf()
    }
}

/// Mixes one word into a hash.
pub open spec fn mix(hash: u64, word: u64) -> u64 {
    (hash ^ word).wrapping_mul(FNV_PRIME)
}

/// The fingerprint of a tree.
pub open spec fn shape_hash(shape: ShapeView) -> u64
    decreases shape, 0nat,
{
    hash_children(
        mix(mix(mix(FNV_OFFSET, shape.tag as u64), shape.label), shape.extra),
        shape.children,
        shape.children.len(),
    )
}

/// The hash continued over the fingerprints of the first `n` trees.
pub open spec fn hash_children(hash: u64, list: Seq<ShapeView>, n: nat) -> u64
    decreases list, n,
    when n <= list.len()
{
    if n == 0 {
        hash
    } else {
        mix(hash_children(hash, list, (n - 1) as nat), shape_hash(list[n - 1]))
    }
}

/// Where `a` comes relative to `b`: below zero before it, zero at it, above zero
/// after it.
pub open spec fn shape_order(a: ShapeView, b: ShapeView) -> int
    decreases a, 0nat,
{
    if a.tag != b.tag {
        if a.tag < b.tag {
            -1
        } else {
            1
        }
    } else if a.label != b.label {
        if a.label < b.label {
            -1
        } else {
            1
        }
    } else if a.extra != b.extra {
        if a.extra < b.extra {
            -1
        } else {
            1
        }
    } else {
        list_order(a.children, b.children, 0)
    }
}

/// The lexicographic order of two lists from place `i` on.
pub open spec fn list_order(a: Seq<ShapeView>, b: Seq<ShapeView>, i: nat) -> int
    decreases a, a.len() - i,
{
    if i >= a.len() {
        if i >= b.len() {
            0
        } else {
            -1
        }
    } else if i >= b.len() {
        1
    } else {
        let here = shape_order(a[i as int], b[i as int]);
        if here != 0 {
            here
        } else {
            list_order(a, b, i + 1)
        }
    }
}

/// The order of trees as a relation.
pub open spec fn shape_le() -> spec_fn(ShapeView, ShapeView) -> bool {
    |a: ShapeView, b: ShapeView| shape_order(a, b) <= 0
}

pub proof fn lemma_order_swap(a: ShapeView, b: ShapeView)
    ensures
        shape_order(b, a) == -shape_order(a, b),
        -1 <= shape_order(a, b) <= 1,
    decreases a, 0nat,
{
    if a.tag == b.tag && a.label == b.label && a.extra == b.extra {
        lemma_list_swap(a.children, b.children, 0);
    }
}

proof fn lemma_list_swap(a: Seq<ShapeView>, b: Seq<ShapeView>, i: nat)
    ensures
        list_order(b, a, i) == -list_order(a, b, i),
        -1 <= list_order(a, b, i) <= 1,
    decreases a, a.len() - i,
{
    if i < a.len() && i < b.len() {
        lemma_order_swap(a[i as int], b[i as int]);
        lemma_list_swap(a, b, i + 1);
    }
}

pub proof fn lemma_order_equal(a: ShapeView, b: ShapeView)
    ensures
        shape_order(a, b) == 0 <==> a == b,
    decreases a, 0nat,
{
    if a.tag == b.tag && a.label == b.label && a.extra == b.extra {
        lemma_list_equal(a.children, b.children, 0);
        if shape_order(a, b) == 0 {
            assert(a.children =~= b.children);
        }
    }
}

proof fn lemma_list_equal(a: Seq<ShapeView>, b: Seq<ShapeView>, i: nat)
    ensures
        list_order(a, b, i) == 0 ==> (i <= a.len() && i <= b.len() ==> a.len() == b.len())
            && forall|k: int|
            i <= k < a.len() ==> #[trigger] a[k] == b[k],
        a == b ==> list_order(a, b, i) == 0,
    decreases a, a.len() - i,
{
    if i < a.len() && i < b.len() {
        lemma_order_equal(a[i as int], b[i as int]);
        lemma_list_equal(a, b, i + 1);
    }
}

pub proof fn lemma_order_transitive(a: ShapeView, b: ShapeView, c: ShapeView)
    requires
        shape_order(a, b) <= 0,
        shape_order(b, c) <= 0,
    ensures
        shape_order(a, c) <= 0,
        shape_order(a, c) == 0 ==> shape_order(a, b) == 0,
    decreases a, 0nat,
{
    if a.tag == b.tag && a.label == b.label && a.extra == b.extra && b.tag == c.tag && b.label
        == c.label && b.extra == c.extra {
        lemma_list_transitive(a.children, b.children, c.children, 0);
    }
}

proof fn lemma_list_transitive(a: Seq<ShapeView>, b: Seq<ShapeView>, c: Seq<ShapeView>, i: nat)
    requires
        list_order(a, b, i) <= 0,
        list_order(b, c, i) <= 0,
    ensures
        list_order(a, c, i) <= 0,
        list_order(a, c, i) == 0 ==> list_order(a, b, i) == 0,
    decreases a, a.len() - i,
{
    if i < a.len() && i < b.len() && i < c.len() {
        let x = a[i as int];
        let y = b[i as int];
        let z = c[i as int];
        lemma_order_swap(x, y);
        lemma_order_swap(y, z);
        lemma_order_transitive(x, y, z);
        if shape_order(x, z) == 0 {
            lemma_order_equal(x, y);
            lemma_order_equal(x, z);
            assert(shape_order(y, z) == 0);
            lemma_list_transitive(a, b, c, i + 1);
        }
    }
}

/// The order of trees is total.
pub proof fn lemma_shape_total()
    ensures
        total_ordering(shape_le()),
{
    let leq = shape_le();
    assert forall|a: ShapeView| #[trigger] leq(a, a) by {
        lemma_order_equal(a, a);
    }
    assert forall|a: ShapeView, b: ShapeView| #[trigger] leq(a, b) && #[trigger] leq(
        b,
        a,
    ) implies a == b by {
        lemma_order_swap(a, b);
        lemma_order_equal(a, b);
    }
    assert forall|a: ShapeView, b: ShapeView, c: ShapeView| #[trigger] leq(a, b) && #[trigger] leq(
        b,
        c,
    ) implies leq(a, c) by {
        lemma_order_transitive(a, b, c);
    }
    assert forall|a: ShapeView, b: ShapeView| #[trigger] leq(a, b) || #[trigger] leq(b, a) by {
        lemma_order_swap(a, b);
    }
}

/// The `i`-th tree of a list.
pub proof fn lemma_shape_views(list: Seq<Shape>, n: nat)
    requires
        n <= list.len(),
    ensures
        shape_views(list, n).len() == n,
        forall|i: int| 0 <= i < n ==> #[trigger] shape_views(list, n)[i] == list[i].view(),
    decreases n,
{
    if n > 0 {
        lemma_shape_views(list, (n - 1) as nat);
    }
}

/// A list carries right fingerprints where each of its shapes does.
pub proof fn lemma_shapes_wf(list: Seq<Shape>, n: nat)
    requires
        n <= list.len(),
    ensures
        shapes_wf(list, n) <==> forall|i: int| 0 <= i < n ==> (#[trigger] list[i]).wf(),
    decreases n,
{
    if n > 0 {
        lemma_shapes_wf(list, (n - 1) as nat);
    }
}

/// All trees of a list of shapes.
pub open spec fn views(list: Seq<Shape>) -> Seq<ShapeView> {
    list.map_values(|shape: Shape| shape.view())
}

/// The children of a shape are the trees of its child list.
pub proof fn lemma_children_views(shape: Shape)
    ensures
        shape.view().children == views(shape.children@),
{
    lemma_shape_views(shape.children@, shape.children@.len());
    assert(shape.view().children =~= views(shape.children@));
}

impl Clone for Shape {
    fn clone(&self) -> (r: Self)
        ensures
            r.view() == self.view(),
            self.wf() ==> r.wf(),
            r.fingerprint == self.fingerprint,
    {
        Shape {
            fingerprint: self.fingerprint,
            tag: self.tag,
            label: self.label,
            extra: self.extra,
            children: Arc::clone(&self.children),
        }
    }
}

impl Shape {
    /// The shape with these integers over these shapes.
    pub fn new(tag: u8, label: u64, extra: u64, children: Vec<Shape>) -> (r: Self)
        requires
            forall|i: int| 0 <= i < children@.len() ==> (#[trigger] children@[i]).wf(),
        ensures
            r.wf(),
            r.view() == (ShapeView { tag, label, extra, children: views(children@) }),
    {
        let mut hash: u64 = FNV_OFFSET;
        hash = (hash ^ (tag as u64)).wrapping_mul(FNV_PRIME);
        hash = (hash ^ label).wrapping_mul(FNV_PRIME);
        hash = (hash ^ extra).wrapping_mul(FNV_PRIME);
        let ghost start = hash;
        let ghost list = views(children@);
        let mut index: usize = 0;
        while index < children.len()
            invariant
                index <= children@.len(),
                forall|i: int| 0 <= i < children@.len() ==> (#[trigger] children@[i]).wf(),
                list == views(children@),
                hash == hash_children(start, list, index as nat),
            decreases children@.len() - index,
        {
            assert(children@[index as int].wf());
            hash = (hash ^ children[index].fingerprint).wrapping_mul(FNV_PRIME);
            index += 1;
        }
        let r = Shape { fingerprint: hash, tag, label, extra, children: Arc::new(children) };
        proof {
            lemma_children_views(r);
            lemma_shapes_wf(r.children@, r.children@.len());
        }
        r
    }

    /// A shape without children.
    pub fn leaf(tag: u8, label: u64, extra: u64) -> (r: Self)
        ensures
            r.wf(),
            r.view() == (ShapeView { tag, label, extra, children: Seq::empty() }),
    {
        let r = Self::new(tag, label, extra, Vec::new());
        assert(views(Seq::<Shape>::empty()) =~= Seq::<ShapeView>::empty());
        r
    }

    /// True where both shapes stand for one tree.
    pub fn same(&self, other: &Shape) -> (r: bool)
        requires
            self.wf(),
            other.wf(),
        ensures
            r == (self.view() == other.view()),
        decreases self,
    {
        if self.fingerprint != other.fingerprint {
            return false;
        }
        if self.tag != other.tag || self.label != other.label || self.extra != other.extra {
            return false;
        }
        proof {
            lemma_children_views(*self);
            lemma_children_views(*other);
            lemma_shapes_wf(self.children@, self.children@.len());
            lemma_shapes_wf(other.children@, other.children@.len());
        }
        if self.children.len() != other.children.len() {
            assert(self.view().children.len() != other.view().children.len());
            return false;
        }
        let mut index: usize = 0;
        while index < self.children.len()
            invariant
                index <= self.children@.len(),
                self.children@.len() == other.children@.len(),
                self.view().children == views(self.children@),
                other.view().children == views(other.children@),
                forall|i: int| 0 <= i < self.children@.len() ==> (#[trigger] self.children@[i]).wf(),
                forall|i: int|
                    0 <= i < other.children@.len() ==> (#[trigger] other.children@[i]).wf(),
                forall|i: int|
                    0 <= i < index ==> (#[trigger] self.children@[i]).view()
                        == other.children@[i].view(),
            decreases self.children@.len() - index,
        {
            assert(decreases_to!(self => self.children@[index as int]));
            if !self.children[index].same(&other.children[index]) {
                assert(self.view().children[index as int] != other.view().children[index as int]);
                return false;
            }
            index += 1;
        }
        assert(self.view().children =~= other.view().children);
        true
    }

    /// Where the tree of `self` comes relative to that of `other`.
    fn order(&self, other: &Shape) -> (r: i8)
        ensures
            r == shape_order(self.view(), other.view()),
        decreases self,
    {
        if self.tag != other.tag {
            return if self.tag < other.tag {
                -1
            } else {
                1
            };
        }
        if self.label != other.label {
            return if self.label < other.label {
                -1
            } else {
                1
            };
        }
        if self.extra != other.extra {
            return if self.extra < other.extra {
                -1
            } else {
                1
            };
        }
        proof {
            lemma_children_views(*self);
            lemma_children_views(*other);
        }
        let ghost a = self.view().children;
        let ghost b = other.view().children;
        let mut index: usize = 0;
        while index < self.children.len() && index < other.children.len()
            invariant
                index <= self.children@.len(),
                index <= other.children@.len(),
                self.tag == other.tag,
                self.label == other.label,
                self.extra == other.extra,
                a == self.view().children,
                b == other.view().children,
                a == views(self.children@),
                b == views(other.children@),
                list_order(a, b, 0) == list_order(a, b, index as nat),
            decreases self.children@.len() - index,
        {
            assert(decreases_to!(self => self.children@[index as int]));
            let here: i8 = self.children[index].order(&other.children[index]);
            assert(here == shape_order(a[index as int], b[index as int]));
            if here != 0 {
                return here;
            }
            index += 1;
        }
        if index < other.children.len() {
            -1
        } else if index < self.children.len() {
            1
        } else {
            0
        }
    }
}

// ---------------------------------------------------------------------------
// Sorting

/// A shape with two integers that say what it stands for.
#[derive(Debug)]
pub struct Keyed {
    pub shape: Shape,
    pub first: usize,
    pub second: usize,
}

/// What a keyed shape says.
pub ghost struct KeyedView {
    pub shape: ShapeView,
    pub first: usize,
    pub second: usize,
}

impl Keyed {
    pub open spec fn view(self) -> KeyedView {
        KeyedView { shape: self.shape.view(), first: self.first, second: self.second }
    }
}

/// Keyed shapes are ordered by shape, then by their integers.
pub open spec fn keyed_le() -> spec_fn(KeyedView, KeyedView) -> bool {
    |a: KeyedView, b: KeyedView|
        {
            let order = shape_order(a.shape, b.shape);
            order < 0 || (order == 0 && (a.first < b.first || (a.first == b.first && a.second
                <= b.second)))
        }
}

/// What a list of keyed shapes says.
pub open spec fn keyed_views(list: Seq<Keyed>) -> Seq<KeyedView> {
    list.map_values(|item: Keyed| item.view())
}

/// The order of keyed shapes is total.
pub proof fn lemma_keyed_total()
    ensures
        total_ordering(keyed_le()),
{
    let leq = keyed_le();
    assert forall|a: KeyedView| #[trigger] leq(a, a) by {
        lemma_order_equal(a.shape, a.shape);
    }
    assert forall|a: KeyedView, b: KeyedView| #[trigger] leq(a, b) && #[trigger] leq(
        b,
        a,
    ) implies a == b by {
        lemma_order_swap(a.shape, b.shape);
        lemma_order_equal(a.shape, b.shape);
    }
    assert forall|a: KeyedView, b: KeyedView, c: KeyedView| #[trigger] leq(a, b) && #[trigger] leq(
        b,
        c,
    ) implies leq(a, c) by {
        lemma_order_swap(a.shape, b.shape);
        lemma_order_swap(b.shape, c.shape);
        lemma_order_transitive(a.shape, b.shape, c.shape);
        if shape_order(a.shape, c.shape) == 0 {
            lemma_order_equal(a.shape, b.shape);
            lemma_order_equal(a.shape, c.shape);
        }
    }
    assert forall|a: KeyedView, b: KeyedView| #[trigger] leq(a, b) || #[trigger] leq(b, a) by {
        lemma_order_swap(a.shape, b.shape);
    }
}

/// The keyed shapes in ascending order.
pub open spec fn keyed_ascending(list: Seq<KeyedView>) -> Seq<KeyedView> {
    list.sort_by(keyed_le())
}

/// True where `a` does not come after `b`.
fn keyed_at_most(a: &Keyed, b: &Keyed) -> (r: bool)
    ensures
        r == keyed_le()(a.view(), b.view()),
{
    let order: i8 = a.shape.order(&b.shape);
    order < 0 || (order == 0 && (a.first < b.first || (a.first == b.first && a.second
        <= b.second)))
}

/// Mapping the items of a sequence into which one more was put.
proof fn lemma_keyed_insert(list: Seq<Keyed>, at: int, item: Keyed)
    requires
        0 <= at <= list.len(),
    ensures
        keyed_views(list.insert(at, item)) == keyed_views(list).insert(at, item.view()),
{
    assert(keyed_views(list.insert(at, item)) =~= keyed_views(list).insert(at, item.view()));
}

/// Arranges keyed shapes in ascending order.
pub fn sort_keyed(items: Vec<Keyed>) -> (out: Vec<Keyed>)
    ensures
        keyed_views(out@) == keyed_ascending(keyed_views(items@)),
        out@.to_multiset() == items@.to_multiset(),
        out@.len() == items@.len(),
{
    broadcast use group_to_multiset_ensures;

    let ghost all = keyed_views(items@);
    let ghost total = items@.to_multiset();
    proof {
        lemma_keyed_total();
    }
    let mut rest = items;
    let mut out: Vec<Keyed> = Vec::new();
    proof {
        assert(keyed_views(out@) =~= Seq::<KeyedView>::empty());
        assert(keyed_views(out@).to_multiset().add(keyed_views(rest@).to_multiset())
            =~= all.to_multiset());
        assert(out@.to_multiset().add(rest@.to_multiset()) =~= total);
    }
    while rest.len() > 0
        invariant
            total_ordering(keyed_le()),
            sorted_by(keyed_views(out@), keyed_le()),
            keyed_views(out@).to_multiset().add(keyed_views(rest@).to_multiset())
                == all.to_multiset(),
            out@.to_multiset().add(rest@.to_multiset()) == total,
            out@.len() + rest@.len() == all.len(),
        decreases rest@.len(),
    {
        broadcast use group_to_multiset_ensures;

        let ghost before_rest = rest@;
        let item = rest.pop().unwrap();
        let mut at: usize = out.len();
        let ghost value = item.view();
        let ghost before = keyed_views(out@);
        while at > 0 && !keyed_at_most(&out[at - 1], &item)
            invariant
                at <= out.len(),
                total_ordering(keyed_le()),
                before == keyed_views(out@),
                value == item.view(),
                sorted_by(before, keyed_le()),
                forall|k: int|
                    at <= k < before.len() ==> keyed_le()(value, #[trigger] before[k]),
            decreases at,
        {
            proof {
                let leq = keyed_le();
                assert(before[at as int - 1] == out@[at as int - 1].view());
                assert(leq(before[at as int - 1], value) || leq(value, before[at as int - 1]));
            }
            at = at - 1;
        }
        proof {
            let leq = keyed_le();
            let after = before.insert(at as int, value);
            if at > 0 {
                assert(before[at as int - 1] == out@[at as int - 1].view());
                assert(leq(before[at as int - 1], value));
                assert forall|k: int| 0 <= k < at implies leq(#[trigger] before[k], value) by {
                    if k < at - 1 {
                        assert(leq(before[k], before[at as int - 1]));
                    }
                }
            }
            assert forall|i: int, j: int| 0 <= i < j < after.len() implies #[trigger] leq(
                after[i],
                after[j],
            ) by {
                if i < at && j > at {
                    assert(leq(before[i], before[j - 1]));
                } else if i < at && j < at {
                    assert(leq(before[i], before[j]));
                } else if i > at {
                    assert(leq(before[i - 1], before[j - 1]));
                } else if i == at {
                    assert(leq(value, before[j - 1]));
                } else {
                    assert(leq(before[i], value));
                }
            }
            lemma_keyed_insert(out@, at as int, item);
            lemma_insert_count(before, at as int, value);
            lemma_insert_count(out@, at as int, item);
            assert(before_rest =~= rest@.push(item));
            assert(keyed_views(before_rest) =~= keyed_views(rest@).push(value));
            assert(after.to_multiset().add(keyed_views(rest@).to_multiset())
                =~= before.to_multiset().add(keyed_views(before_rest).to_multiset()));
            assert(out@.insert(at as int, item).to_multiset().add(rest@.to_multiset())
                =~= out@.to_multiset().add(before_rest.to_multiset()));
        }
        out.insert(at, item);
    }
    proof {
        assert(rest@ =~= Seq::<Keyed>::empty());
        assert(keyed_views(rest@) =~= Seq::<KeyedView>::empty());
        assert(keyed_views(out@).to_multiset() =~= all.to_multiset());
        assert(out@.to_multiset() =~= total);
        all.lemma_sort_by_ensures(keyed_le());
        lemma_sorted_unique(keyed_views(out@), keyed_ascending(all), keyed_le());
    }
    out
}

/// Putting a value in adds it to the multiset of the values.
pub proof fn lemma_insert_count<T>(values: Seq<T>, at: int, value: T)
    requires
        0 <= at <= values.len(),
    ensures
        values.insert(at, value).to_multiset() == values.to_multiset().insert(value),
{
    broadcast use group_to_multiset_ensures;

    let head = values.take(at);
    let tail = values.skip(at);
    assert(values.insert(at, value) =~= head.push(value) + tail);
    assert(values =~= head + tail);
    lemma_multiset_commutative(head.push(value), tail);
    lemma_multiset_commutative(head, tail);
    assert(values.insert(at, value).to_multiset() =~= values.to_multiset().insert(value));
}

/// Permuted sequences stay permuted when every item is mapped.
pub proof fn lemma_map_multiset<A, B>(a: Seq<A>, b: Seq<A>, f: spec_fn(A) -> B)
    requires
        a.to_multiset() == b.to_multiset(),
    ensures
        a.map_values(f).to_multiset() == b.map_values(f).to_multiset(),
    decreases a.len(),
{
    broadcast use group_to_multiset_ensures;

    assert(a.len() == a.to_multiset().len());
    assert(b.len() == b.to_multiset().len());
    if a.len() == 0 {
        assert(a.map_values(f) =~= Seq::<B>::empty());
        assert(b.map_values(f) =~= Seq::<B>::empty());
    } else {
        let last = a.last();
        assert(a.contains(a[a.len() - 1]));
        assert(a.to_multiset().count(last) > 0);
        assert(b.contains(last));
        let j = choose|j: int| 0 <= j < b.len() && b[j] == last;
        let rest = b.remove(j);
        assert(b =~= rest.insert(j, last));
        lemma_insert_count(rest, j, last);
        assert(a =~= a.drop_last().push(last));
        assert(a.drop_last().to_multiset().insert(last) == a.to_multiset());
        assert(rest.to_multiset().insert(last) == b.to_multiset());
        assert(a.drop_last().to_multiset() =~= a.to_multiset().remove(last));
        assert(rest.to_multiset() =~= b.to_multiset().remove(last));
        lemma_map_multiset(a.drop_last(), rest, f);
        assert(b.map_values(f) =~= rest.map_values(f).insert(j, f(last)));
        lemma_insert_count(rest.map_values(f), j, f(last));
        assert(a.map_values(f) =~= a.drop_last().map_values(f).push(f(last)));
    }
}

/// The trees in ascending order.
pub open spec fn shape_ascending(list: Seq<ShapeView>) -> Seq<ShapeView> {
    list.sort_by(shape_le())
}

/// The shapes of keyed shapes.
pub open spec fn keyed_shapes(list: Seq<KeyedView>) -> Seq<ShapeView> {
    list.map_values(|item: KeyedView| item.shape)
}

/// Sorting keyed shapes sorts their shapes.
pub proof fn lemma_keyed_shapes_ascending(list: Seq<KeyedView>)
    ensures
        keyed_shapes(keyed_ascending(list)) == shape_ascending(keyed_shapes(list)),
{
    lemma_keyed_total();
    lemma_shape_total();
    list.lemma_sort_by_ensures(keyed_le());
    keyed_shapes(list).lemma_sort_by_ensures(shape_le());
    let sorted = keyed_ascending(list);
    let shapes = keyed_shapes(sorted);
    lemma_map_multiset(list, sorted, |item: KeyedView| item.shape);
    assert forall|i: int, j: int| 0 <= i < j < shapes.len() implies #[trigger] shape_le()(
        shapes[i],
        shapes[j],
    ) by {
        assert(keyed_le()(sorted[i], sorted[j]));
    }
    lemma_sorted_unique(shapes, shape_ascending(keyed_shapes(list)), shape_le());
}

/// The order in which trees are listed does not matter once they are sorted.
pub proof fn lemma_shape_ascending_permuted(a: Seq<ShapeView>, b: Seq<ShapeView>)
    requires
        a.to_multiset() == b.to_multiset(),
    ensures
        shape_ascending(a) == shape_ascending(b),
{
    lemma_shape_total();
    a.lemma_sort_by_ensures(shape_le());
    b.lemma_sort_by_ensures(shape_le());
    lemma_sorted_unique(shape_ascending(a), shape_ascending(b), shape_le());
}

} // verus!
