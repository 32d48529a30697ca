//! Sets and maps that keep the order of insertion, from `indexmap`.

use vstd::prelude::*;

verus! {

/// A set of values in the order of their insertion.
#[verifier::external_type_specification]
#[verifier::external_body]
#[verifier::reject_recursive_types(T)]
#[verifier::reject_recursive_types(S)]
pub struct ExIndexSet<T, S>(indexmap::IndexSet<T, S>);

/// A map in the order in which its keys were inserted.
#[verifier::external_type_specification]
#[verifier::external_body]
#[verifier::reject_recursive_types(K)]
#[verifier::reject_recursive_types(V)]
#[verifier::reject_recursive_types(S)]
pub struct ExIndexMap<K, V, S>(indexmap::IndexMap<K, V, S>);

/// The numbers of a set, in the order of their insertion.
pub uninterp spec fn node_items(set: indexmap::IndexSet<usize>) -> Seq<usize>;

/// `IndexSet::new` gives a set without values.
#[verifier::external_body]
pub(crate) fn node_set_new() -> (r: indexmap::IndexSet<usize>)
    ensures
        node_items(r) == Seq::<usize>::empty(),
{
    indexmap::IndexSet::new()
}

/// `IndexSet::insert` puts a value at the end, unless the set has it; it
/// returns whether the value is new. No value is in a set twice.
#[verifier::external_body]
pub(crate) fn node_set_insert(set: &mut indexmap::IndexSet<usize>, node: usize) -> (r: bool)
    ensures
        r == !node_items(*old(set)).contains(node),
        node_items(*final(set)) == if r {
            node_items(*old(set)).push(node)
        } else {
            node_items(*old(set))
        },
{
    set.insert(node)
}

/// `IndexSet::len` is the number of values.
#[verifier::external_body]
pub(crate) fn node_set_len(set: &indexmap::IndexSet<usize>) -> (r: usize)
    ensures
        r == node_items(*set).len(),
{
    set.len()
}

/// `IndexSet::get_index` gives the value at a place.
#[verifier::external_body]
pub(crate) fn node_set_at(set: &indexmap::IndexSet<usize>, at: usize) -> (r: Option<usize>)
    ensures
        r == (if at < node_items(*set).len() {
            Some(node_items(*set)[at as int])
        } else {
            None::<usize>
        }),
{
    set.get_index(at).copied()
}

/// `IndexSet::clone` keeps the values and their order.
#[verifier::external_body]
pub(crate) fn node_set_clone(set: &indexmap::IndexSet<usize>) -> (r: indexmap::IndexSet<usize>)
    ensures
        node_items(r) == node_items(*set),
{
    set.clone()
}

// ---------------------------------------------------------------------------
// Sets of triples

/// Three numbers.
pub type Triple = (usize, usize, u32);

/// The triples of a set, in their order.
pub uninterp spec fn triple_items(set: indexmap::IndexSet<(usize, usize, u32)>) -> Seq<
    (usize, usize, u32),
>;

/// Triples are ordered by their first numbers, then by their second ones, then
/// by their third ones.
pub open spec fn triple_le(a: Triple, b: Triple) -> bool {
    a.0 < b.0 || (a.0 == b.0 && (a.1 < b.1 || (a.1 == b.1 && a.2 <= b.2)))
}

/// `IndexSet::new` gives a set without values.
#[verifier::external_body]
pub(crate) fn triple_set_new() -> (r: indexmap::IndexSet<(usize, usize, u32)>)
    ensures
        triple_items(r) == Seq::<Triple>::empty(),
{
    indexmap::IndexSet::new()
}

/// `IndexSet::insert` puts a value at the end, unless the set has it.
#[verifier::external_body]
pub(crate) fn triple_set_insert(
    set: &mut indexmap::IndexSet<(usize, usize, u32)>,
    item: (usize, usize, u32),
) -> (r: bool)
    ensures
        r == !triple_items(*old(set)).contains(item),
        triple_items(*final(set)) == if r {
            triple_items(*old(set)).push(item)
        } else {
            triple_items(*old(set))
        },
{
    set.insert(item)
}

/// `IndexSet::len` is the number of values.
#[verifier::external_body]
pub(crate) fn triple_set_len(set: &indexmap::IndexSet<(usize, usize, u32)>) -> (r: usize)
    ensures
        r == triple_items(*set).len(),
{
    set.len()
}

/// `IndexSet::get_index` gives the value at a place.
#[verifier::external_body]
pub(crate) fn triple_set_at(set: &indexmap::IndexSet<(usize, usize, u32)>, at: usize) -> (r: Option<
    (usize, usize, u32),
>)
    ensures
        r == (if at < triple_items(*set).len() {
            Some(triple_items(*set)[at as int])
        } else {
            None::<Triple>
        }),
{
    set.get_index(at).copied()
}

/// `IndexSet::sort` rearranges the values in ascending order.
#[verifier::external_body]
pub(crate) fn triple_set_sort(set: &mut indexmap::IndexSet<(usize, usize, u32)>)
    ensures
        triple_items(*final(set)).to_multiset() == triple_items(*old(set)).to_multiset(),
        forall|i: int, j: int|
            0 <= i < j < triple_items(*final(set)).len() ==> triple_le(
                #[trigger] triple_items(*final(set))[i],
                #[trigger] triple_items(*final(set))[j],
            ),
{
    set.sort()
}

// ---------------------------------------------------------------------------
// Sets of lists of triples

/// The lists of a set, in the order of their insertion.
pub uninterp spec fn list_items(set: indexmap::IndexSet<Vec<(usize, usize, u32)>>) -> Seq<
    Seq<(usize, usize, u32)>,
>;

/// `IndexSet::new` gives a set without values.
#[verifier::external_body]
pub(crate) fn list_set_new() -> (r: indexmap::IndexSet<Vec<(usize, usize, u32)>>)
    ensures
        list_items(r) == Seq::<Seq<Triple>>::empty(),
{
    indexmap::IndexSet::new()
}

/// `IndexSet::get_index_of` gives the place of a value.
#[verifier::external_body]
pub(crate) fn list_set_place(
    set: &indexmap::IndexSet<Vec<(usize, usize, u32)>>,
    list: &Vec<(usize, usize, u32)>,
) -> (r: Option<usize>)
    ensures
        match r {
            Some(at) => at < list_items(*set).len() && list_items(*set)[at as int] == list@,
            None => !list_items(*set).contains(list@),
        },
{
    set.get_index_of(list)
}

/// `IndexSet::insert` puts a value at the end, unless the set has it.
#[verifier::external_body]
pub(crate) fn list_set_insert(
    set: &mut indexmap::IndexSet<Vec<(usize, usize, u32)>>,
    list: Vec<(usize, usize, u32)>,
) -> (r: bool)
    ensures
        r == !list_items(*old(set)).contains(list@),
        list_items(*final(set)) == if r {
            list_items(*old(set)).push(list@)
        } else {
            list_items(*old(set))
        },
{
    set.insert(list)
}

// ---------------------------------------------------------------------------
// Maps from triples

/// The entries of a map, in the order in which their keys were inserted.
pub uninterp spec fn map_entries(map: indexmap::IndexMap<(usize, usize, u32), usize>) -> Seq<
    ((usize, usize, u32), usize),
>;

/// A key is in a list of entries.
pub open spec fn has_entry(entries: Seq<(Triple, usize)>, key: Triple) -> bool {
    exists|i: int| 0 <= i < entries.len() && (#[trigger] entries[i]).0 == key
}

/// `IndexMap::new` gives a map without entries.
#[verifier::external_body]
pub(crate) fn triple_map_new() -> (r: indexmap::IndexMap<(usize, usize, u32), usize>)
    ensures
        map_entries(r) == Seq::<(Triple, usize)>::empty(),
{
    indexmap::IndexMap::new()
}

/// `IndexMap::insert` puts an entry at the end where its key is new.
#[verifier::external_body]
pub(crate) fn triple_map_insert(
    map: &mut indexmap::IndexMap<(usize, usize, u32), usize>,
    key: (usize, usize, u32),
    value: usize,
)
    ensures
        !has_entry(map_entries(*old(map)), key) ==> map_entries(*final(map)) == map_entries(
            *old(map),
        ).push((key, value)),
        has_entry(map_entries(*old(map)), key) ==> map_entries(*final(map)).len() == map_entries(
            *old(map),
        ).len() && forall|i: int|
            0 <= i < map_entries(*old(map)).len() ==> #[trigger] map_entries(*final(map))[i] == if map_entries(*old(map))[i].0 == key {
                (key, value)
            } else {
                map_entries(*old(map))[i]
            },
{
    map.insert(key, value);
}

/// `IndexMap::len` is the number of entries.
#[verifier::external_body]
pub(crate) fn triple_map_len(map: &indexmap::IndexMap<(usize, usize, u32), usize>) -> (r: usize)
    ensures
        r == map_entries(*map).len(),
{
    map.len()
}

/// `IndexMap::get_index` gives the entry at a place.
#[verifier::external_body]
pub(crate) fn triple_map_at(
    map: &indexmap::IndexMap<(usize, usize, u32), usize>,
    at: usize,
) -> (r: Option<((usize, usize, u32), usize)>)
    ensures
        r == (if at < map_entries(*map).len() {
            Some(map_entries(*map)[at as int])
        } else {
            None::<(Triple, usize)>
        }),
{
    map.get_index(at).map(|(key, value)| (*key, *value))
}

} // verus!
