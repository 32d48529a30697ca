//! Green trees: position-free syntax trees, each stored once.

use std::collections::HashMap;
use vstd::prelude::*;

use crate::framework::parse::grammar::{NonTerminalId, Symbol, TerminalId};
use crate::store::GenerationVec;
use crate::utils::{FNV_OFFSET, FNV_PRIME};

verus! {

/// The index of a green tree in its arena.
pub type GreenId = usize;

/// Why an error tree was made.
#[derive(Debug, Clone, Copy, PartialEq, Eq, Structural, Hash)]
pub enum ErrorKind {
    MissingToken,
    UnexpectedToken,
    UnexpectedEndOfInput,
    Recovered,
}

/// What a green tree holds.
#[derive(Debug, PartialEq, Eq)]
pub enum TreeData {
    Node { id: NonTerminalId, children: Vec<GreenId> },
    Leaf { id: TerminalId },
    Error {
        kind: ErrorKind,
        node: NonTerminalId,
        children: Vec<GreenId>,
        unexpected: Option<Symbol>,
        expected: Symbol,
        recovered: bool,
        location: Option<usize>,
    },
}

/// What a green tree says.
pub ghost enum DataView {
    Node { id: NonTerminalId, children: Seq<GreenId> },
    Leaf { id: TerminalId },
    Error {
        kind: ErrorKind,
        node: NonTerminalId,
        children: Seq<GreenId>,
        unexpected: Option<Symbol>,
        expected: Symbol,
        recovered: bool,
        location: Option<usize>,
    },
}

impl View for TreeData {
    type V = DataView;

    open spec fn view(&self) -> DataView {
        match *self {
            TreeData::Node { id, children } => DataView::Node { id, children: children@ },
            TreeData::Leaf { id } => DataView::Leaf { id },
            TreeData::Error {
                kind,
                node,
                children,
                unexpected,
                expected,
                recovered,
                location,
            } => DataView::Error {
                kind,
                node,
                children: children@,
                unexpected,
                expected,
                recovered,
                location,
            },
        }
    }
}

/// A position-free syntax tree.
#[derive(Debug, PartialEq, Eq)]
pub struct GreenTree {
    pub length: usize,
    pub data: TreeData,
}

/// A green tree's length and what it says.
pub ghost struct TreeView {
    pub length: usize,
    pub data: DataView,
}

impl View for GreenTree {
    type V = TreeView;

    open spec fn view(&self) -> TreeView {
        TreeView { length: self.length, data: self.data@ }
    }
}

/// What one parse error says.
#[derive(Debug, Clone, Copy, PartialEq, Eq, Structural, Hash)]
pub struct ParseErrorInfo {
    pub kind: ErrorKind,
    pub node: NonTerminalId,
    pub length: usize,
    pub unexpected: Option<Symbol>,
    pub expected: Symbol,
    pub recovered: bool,
    pub location: Option<usize>,
}

impl GreenTree {
    pub fn new(length: usize, data: TreeData) -> (r: GreenTree)
        ensures
            r@ == (TreeView { length, data: data@ }),
    {
        GreenTree { length, data }
    }

    pub fn new_leaf(length: usize, id: TerminalId) -> (r: GreenTree)
        ensures
            r@ == (TreeView { length, data: DataView::Leaf { id } }),
    {
        GreenTree { length, data: TreeData::Leaf { id } }
    }

    pub fn new_node(length: usize, id: NonTerminalId, children: Vec<GreenId>) -> (r: GreenTree)
        ensures
            r@ == (TreeView { length, data: DataView::Node { id, children: children@ } }),
    {
        GreenTree { length, data: TreeData::Node { id, children } }
    }

    pub fn new_error(
        length: usize,
        kind: ErrorKind,
        node: NonTerminalId,
        children: Vec<GreenId>,
        unexpected: Option<Symbol>,
        expected: Symbol,
        recovered: bool,
        location: Option<usize>,
    ) -> (r: GreenTree)
        ensures
            r@ == (TreeView {
                length,
                data: DataView::Error {
                    kind,
                    node,
                    children: children@,
                    unexpected,
                    expected,
                    recovered,
                    location,
                },
            }),
    {
        GreenTree {
            length,
            data: TreeData::Error {
                kind,
                node,
                children,
                unexpected,
                expected,
                recovered,
                location,
            },
        }
    }

    /// A token that the grammar does not allow where it stands.
    pub fn new_unexpected_error(
        length: usize,
        node: NonTerminalId,
        unexpected: Symbol,
        expected: Symbol,
    ) -> (r: GreenTree)
        ensures
            r@ == (TreeView {
                length,
                data: DataView::Error {
                    kind: ErrorKind::UnexpectedToken,
                    node,
                    children: Seq::empty(),
                    unexpected: Some(unexpected),
                    expected,
                    recovered: false,
                    location: None,
                },
            }),
    {
        Self::new_error(
            length,
            ErrorKind::UnexpectedToken,
            node,
            Vec::new(),
            Some(unexpected),
            expected,
            false,
            None,
        )
    }

    /// A token that the grammar asks for and that is not there.
    pub fn new_missing_error(length: usize, node: NonTerminalId, expected: Symbol) -> (r: GreenTree)
        ensures
            r@ == (TreeView {
                length,
                data: DataView::Error {
                    kind: ErrorKind::MissingToken,
                    node,
                    children: Seq::empty(),
                    unexpected: None,
                    expected,
                    recovered: false,
                    location: None,
                },
            }),
    {
        Self::new_error(
            length,
            ErrorKind::MissingToken,
            node,
            Vec::new(),
            None,
            expected,
            false,
            None,
        )
    }

    /// Input that ends where the grammar asks for more.
    pub fn new_eoi_error(node: NonTerminalId, expected: Symbol) -> (r: GreenTree)
        ensures
            r@ == (TreeView {
                length: 0,
                data: DataView::Error {
                    kind: ErrorKind::UnexpectedEndOfInput,
                    node,
                    children: Seq::empty(),
                    unexpected: None,
                    expected,
                    recovered: false,
                    location: None,
                },
            }),
    {
        Self::new_error(
            0,
            ErrorKind::UnexpectedEndOfInput,
            node,
            Vec::new(),
            None,
            expected,
            false,
            None,
        )
    }
}

/// True where both lists hold the same ids.
fn same_ids(a: &Vec<GreenId>, b: &Vec<GreenId>) -> (r: bool)
    ensures
        r == (a@ == b@),
{
    if a.len() != b.len() {
        return false;
    }
    let mut index: usize = 0;
    while index < a.len()
        invariant
            index <= a@.len(),
            a@.len() == b@.len(),
            forall|i: int| 0 <= i < index ==> #[trigger] a@[i] == b@[i],
        decreases a@.len() - index,
    {
        if a[index] != b[index] {
            return false;
        }
        index += 1;
    }
    assert(a@ =~= b@);
    true
}

/// True where both trees say the same.
fn same_tree(a: &GreenTree, b: &GreenTree) -> (r: bool)
    ensures
        r == (a@ == b@),
{
    if a.length != b.length {
        return false;
    }
    match (&a.data, &b.data) {
        (TreeData::Node { id: x, children: xs }, TreeData::Node { id: y, children: ys }) => *x == *y
            && same_ids(xs, ys),
        (TreeData::Leaf { id: x }, TreeData::Leaf { id: y }) => *x == *y,
        (
            TreeData::Error {
                kind: k1,
                node: n1,
                children: c1,
                unexpected: u1,
                expected: e1,
                recovered: r1,
                location: l1,
            },
            TreeData::Error {
                kind: k2,
                node: n2,
                children: c2,
                unexpected: u2,
                expected: e2,
                recovered: r2,
                location: l2,
            },
        ) => {
            let same_unexpected = match (u1, u2) {
                (None, None) => true,
                (Some(x), Some(y)) => *x == *y,
                _ => false,
            };
            let same_location = match (l1, l2) {
                (None, None) => true,
                (Some(x), Some(y)) => *x == *y,
                _ => false,
            };
            *k1 == *k2 && *n1 == *n2 && same_unexpected && *e1 == *e2 && *r1 == *r2
                && same_location && same_ids(c1, c2)
        },
        _ => false,
    }
}

/// Mixes one word into a hash.
spec fn mixed(hash: u64, word: u64) -> u64 {
    (hash ^ word).wrapping_mul(FNV_PRIME)
}

/// The hash continued over a list of ids.
spec fn mixed_ids(hash: u64, ids: Seq<GreenId>) -> u64
    decreases ids.len(),
{
    if ids.len() == 0 {
        hash
    } else {
        mixed(mixed_ids(hash, ids.drop_last()), ids.last() as u64)
    }
}

/// The place of a tree in the lookup directory.
spec fn bucket_of(tree: TreeView) -> u64 {
    let start = mixed(FNV_OFFSET, tree.length as u64);
    match tree.data {
        DataView::Node { id, children } => mixed_ids(mixed(start, id as u64), children),
        DataView::Leaf { id } => mixed(mixed(start, 1), id as u64),
        DataView::Error { node, children, .. } => mixed_ids(
            mixed(mixed(start, 2), node as u64),
            children,
        ),
    }
}

fn mix_ids(hash: u64, ids: &Vec<GreenId>) -> (r: u64)
    ensures
        r == mixed_ids(hash, ids@),
{
    let mut value: u64 = hash;
    let mut index: usize = 0;
    assert(ids@.take(0) =~= Seq::<GreenId>::empty());
    while index < ids.len()
        invariant
            index <= ids@.len(),
            value == mixed_ids(hash, ids@.take(index as int)),
        decreases ids@.len() - index,
    {
        assert(ids@.take(index as int + 1).drop_last() =~= ids@.take(index as int));
        value = (value ^ (ids[index] as u64)).wrapping_mul(FNV_PRIME);
        index += 1;
    }
    assert(ids@.take(ids@.len() as int) =~= ids@);
    value
}

fn bucket(tree: &GreenTree) -> (r: u64)
    ensures
        r == bucket_of(tree@),
{
    let start: u64 = (FNV_OFFSET ^ (tree.length as u64)).wrapping_mul(FNV_PRIME);
    match &tree.data {
        TreeData::Node { id, children } => mix_ids(
            (start ^ (*id as u64)).wrapping_mul(FNV_PRIME),
            children,
        ),
        TreeData::Leaf { id } => ((start ^ 1u64).wrapping_mul(FNV_PRIME) ^ (
        *id as u64)).wrapping_mul(FNV_PRIME),
        TreeData::Error { node, children, .. } => mix_ids(
            ((start ^ 2u64).wrapping_mul(FNV_PRIME) ^ (*node as u64)).wrapping_mul(FNV_PRIME),
            children,
        ),
    }
}

/// The green trees of one document, each stored once, appended and frozen by
/// generation. The lookup directory covers frozen generations too.
pub struct TreeArena {
    trees: GenerationVec<GreenTree>,
    index: HashMap<u64, Vec<GreenId>>,
}

/// What the trees of an arena say.
pub open spec fn tree_views(trees: Seq<GreenTree>) -> Seq<TreeView> {
    trees.map_values(|tree: GreenTree| tree@)
}

/// The lengths of the trees with these ids, added up; an id without a tree
/// counts as nothing.
pub open spec fn summed_length(trees: Seq<TreeView>, ids: Seq<GreenId>) -> int
    decreases ids.len(),
{
    if ids.len() == 0 {
        0
    } else {
        summed_length(trees, ids.drop_last()) + (if ids.last() < trees.len() {
            trees[ids.last() as int].length as int
        } else {
            0
        })
    }
}

impl TreeArena {
    /// What the trees say, by id.
    pub closed spec fn view(self) -> Seq<TreeView> {
        tree_views(self.trees@)
    }

    /// No tree is stored twice, and the directory finds every tree.
    pub closed spec fn wf(self) -> bool {
        &&& self.trees.wf()
        &&& self@.no_duplicates()
        &&& forall|id: int|
            0 <= id < self@.len() ==> self.index@.dom().contains(bucket_of(#[trigger] self@[id]))
                && self.index@[bucket_of(self@[id])]@.contains(id as usize)
        &&& forall|key: u64, i: int|
            #![trigger self.index@[key]@[i]]
            self.index@.dom().contains(key) && 0 <= i < self.index@[key]@.len()
                ==> self.index@[key]@[i] < self@.len()
    }

    pub fn new() -> (r: TreeArena)
        ensures
            r.wf(),
            r@ == Seq::<TreeView>::empty(),
    {
        let r = TreeArena { trees: GenerationVec::new(), index: HashMap::new() };
        assert(r@ =~= Seq::<TreeView>::empty());
        r
    }

    /// Looks for a tree that says the same.
    fn find(&self, tree: &GreenTree, key: u64) -> (r: Option<GreenId>)
        requires
            self.wf(),
            key == bucket_of(tree@),
        ensures
            match r {
                Some(id) => id < self@.len() && self@[id as int] == tree@,
                None => !self@.contains(tree@),
            },
    {
        broadcast use vstd::std_specs::hash::group_hash_axioms;

        match self.index.get(&key) {
            Some(list) => {
                let mut at: usize = 0;
                while at < list.len()
                    invariant
                        self.wf(),
                        at <= list@.len(),
                        self.index@.dom().contains(key),
                        self.index@[key] == *list,
                        forall|i: int| 0 <= i < at ==> self@[#[trigger] list@[i] as int] != tree@,
                    decreases list@.len() - at,
                {
                    let id: GreenId = list[at];
                    assert(self.index@[key]@[at as int] == id);
                    match self.trees.get(id) {
                        Some(found) => {
                            assert(self@[id as int] == found@);
                            if same_tree(found, tree) {
                                return Some(id);
                            }
                        },
                        None => {},
                    }
                    at += 1;
                }
                proof {
                    self.trees.lemma_len();
                    if self@.contains(tree@) {
                        let id = choose|id: int| 0 <= id < self@.len() && self@[id] == tree@;
                        assert(self.index@[bucket_of(self@[id])]@.contains(id as usize));
                        let i = choose|i: int| 0 <= i < list@.len() && list@[i] == id as usize;
                        assert(self@[list@[i] as int] == tree@);
                    }
                }
                None
            },
            None => {
                proof {
                    if self@.contains(tree@) {
                        let id = choose|id: int| 0 <= id < self@.len() && self@[id] == tree@;
                        assert(self.index@.dom().contains(bucket_of(self@[id])));
                    }
                }
                None
            },
        }
    }

    /// Stores a tree and returns its id; a tree that says the same as a stored
    /// one gets that one's id.
    pub fn insert(&mut self, tree: GreenTree) -> (r: GreenId)
        requires
            old(self).wf(),
        ensures
            final(self).wf(),
            r < final(self)@.len(),
            final(self)@[r as int] == tree@,
            final(self)@ == (if old(self)@.contains(tree@) {
                old(self)@
            } else {
                old(self)@.push(tree@)
            }),
            !old(self)@.contains(tree@) ==> r == old(self)@.len(),
    {
        broadcast use vstd::std_specs::hash::group_hash_axioms;

        let key: u64 = bucket(&tree);
        match self.find(&tree, key) {
            Some(id) => {
                assert(self@.contains(self@[id as int]));
                return id;
            },
            None => {},
        }
        let ghost before = self@;
        let ghost index0 = self.index@;
        let ghost added = tree@;
        let id: usize = self.trees.push(tree);
        assert(self@ =~= before.push(added));
        let mut list: Vec<GreenId> = match self.index.remove(&key) {
            Some(list) => list,
            None => Vec::new(),
        };
        let ghost list0 = list@;
        list.push(id);
        self.index.insert(key, list);
        proof {
            assert(self.index@[key]@ == list0.push(id));
            assert forall|k: int| 0 <= k < self@.len() implies self.index@.dom().contains(
                bucket_of(#[trigger] self@[k]),
            ) && self.index@[bucket_of(self@[k])]@.contains(k as usize) by {
                if k < before.len() {
                    assert(self@[k] == before[k]);
                    assert(index0[bucket_of(before[k])]@.contains(k as usize));
                    if bucket_of(before[k]) == key {
                        let i = choose|i: int| 0 <= i < list0.len() && list0[i] == k as usize;
                        assert(list0.push(id)[i] == k as usize);
                    }
                } else {
                    assert(list0.push(id)[list0.len() as int] == id);
                }
            }
            assert forall|other: u64, i: int|
                #![trigger self.index@[other]@[i]]
                self.index@.dom().contains(other) && 0 <= i < self.index@[other]@.len() implies
                self.index@[other]@[i] < self@.len() by {
                if other == key {
                    if i < list0.len() {
                        assert(index0.dom().contains(key));
                        assert(index0[key]@[i] == list0[i]);
                    }
                } else {
                    assert(index0[other]@[i] < before.len());
                }
            }
            assert(self@.no_duplicates()) by {
                assert forall|i: int, j: int|
                    0 <= i < self@.len() && 0 <= j < self@.len() && i != j implies self@[i]
                    != self@[j] by {
                    if i < before.len() && j < before.len() {
                        assert(before[i] != before[j]);
                    } else if i < before.len() {
                        assert(before.contains(before[i]));
                    } else {
                        assert(before.contains(before[j]));
                    }
                }
            }
        }
        id
    }

    /// The tree with an id, where there is one.
    pub fn get(&self, id: GreenId) -> (r: Option<&GreenTree>)
        requires
            self.wf(),
        ensures
            match r {
                Some(tree) => id < self@.len() && tree@ == self@[id as int],
                None => id >= self@.len(),
            },
    {
        self.trees.get(id)
    }

    /// The number of trees.
    pub fn len(&self) -> (r: usize)
        requires
            self.wf(),
        ensures
            r == self@.len(),
    {
        self.trees.len()
    }

    /// Freezes the current generation. Trees and directory stay as they are.
    pub fn seal_generation(&mut self)
        requires
            old(self).wf(),
        ensures
            final(self).wf(),
            final(self)@ == old(self)@,
    {
        self.trees.seal();
    }

    /// Stores a node over stored trees; it is as long as they are together.
    pub fn node(&mut self, id: NonTerminalId, children: Vec<GreenId>) -> (r: GreenId)
        requires
            old(self).wf(),
            summed_length(old(self)@, children@) <= usize::MAX,
        ensures
            final(self).wf(),
            r < final(self)@.len(),
            final(self)@[r as int] == (TreeView {
                length: summed_length(old(self)@, children@) as usize,
                data: DataView::Node { id, children: children@ },
            }),
            final(self)@ == (if old(self)@.contains(final(self)@[r as int]) {
                old(self)@
            } else {
                old(self)@.push(final(self)@[r as int])
            }),
    {
        let length: usize = self.total_len(&children);
        self.insert(GreenTree::new_node(length, id, children))
    }

    /// Stores a leaf.
    pub fn leaf(&mut self, length: usize, id: TerminalId) -> (r: GreenId)
        requires
            old(self).wf(),
        ensures
            final(self).wf(),
            r < final(self)@.len(),
            final(self)@[r as int] == (TreeView { length, data: DataView::Leaf { id } }),
            final(self)@ == (if old(self)@.contains(final(self)@[r as int]) {
                old(self)@
            } else {
                old(self)@.push(final(self)@[r as int])
            }),
    {
        self.insert(GreenTree::new_leaf(length, id))
    }

    /// Stores an error tree.
    pub fn error(
        &mut self,
        length: usize,
        kind: ErrorKind,
        node: NonTerminalId,
        children: Vec<GreenId>,
        unexpected: Option<Symbol>,
        expected: Symbol,
        recovered: bool,
        location: Option<usize>,
    ) -> (r: GreenId)
        requires
            old(self).wf(),
        ensures
            final(self).wf(),
            r < final(self)@.len(),
            final(self)@[r as int] == (TreeView {
                length,
                data: DataView::Error {
                    kind,
                    node,
                    children: children@,
                    unexpected,
                    expected,
                    recovered,
                    location,
                },
            }),
            final(self)@ == (if old(self)@.contains(final(self)@[r as int]) {
                old(self)@
            } else {
                old(self)@.push(final(self)@[r as int])
            }),
    {
        self.insert(
            GreenTree::new_error(
                length,
                kind,
                node,
                children,
                unexpected,
                expected,
                recovered,
                location,
            ),
        )
    }

    /// The lengths of stored trees, added up.
    fn total_len(&self, children: &Vec<GreenId>) -> (r: usize)
        requires
            self.wf(),
            summed_length(self@, children@) <= usize::MAX,
        ensures
            r == summed_length(self@, children@),
    {
        let mut total: usize = 0;
        let mut index: usize = 0;
        assert(children@.take(0) =~= Seq::<GreenId>::empty());
        while index < children.len()
            invariant
                self.wf(),
                index <= children@.len(),
                total == summed_length(self@, children@.take(index as int)),
                summed_length(self@, children@) <= usize::MAX,
            decreases children@.len() - index,
        {
            proof {
                assert(children@.take(index as int + 1).drop_last() =~= children@.take(
                    index as int,
                ));
                lemma_summed_prefix(self@, children@, index as int + 1);
            }
            match self.trees.get(children[index]) {
                Some(tree) => {
                    assert(self@[children@[index as int] as int] == tree@);
                    total = total + tree.length;
                },
                None => {},
            }
            index += 1;
        }
        assert(children@.take(children@.len() as int) =~= children@);
        total
    }
}

/// A prefix of the ids adds up to no more than all of them.
proof fn lemma_summed_prefix(trees: Seq<TreeView>, ids: Seq<GreenId>, n: int)
    requires
        0 <= n <= ids.len(),
    ensures
        0 <= summed_length(trees, ids.take(n)) <= summed_length(trees, ids),
    decreases ids.len() - n,
{
    if n == ids.len() {
        assert(ids.take(n) =~= ids);
        lemma_summed_positive(trees, ids);
    } else {
        lemma_summed_prefix(trees, ids, n + 1);
        assert(ids.take(n + 1).drop_last() =~= ids.take(n));
        lemma_summed_positive(trees, ids.take(n));
    }
}

proof fn lemma_summed_positive(trees: Seq<TreeView>, ids: Seq<GreenId>)
    ensures
        summed_length(trees, ids) >= 0,
    decreases ids.len(),
{
    if ids.len() > 0 {
        lemma_summed_positive(trees, ids.drop_last());
    }
}

/// One tree, one id: two ids of a well formed arena name trees that differ.
pub proof fn lemma_ids_name_trees(arena: TreeArena, a: int, b: int)
    requires
        arena.wf(),
        0 <= a < arena@.len(),
        0 <= b < arena@.len(),
    ensures
        arena@[a] == arena@[b] <==> a == b,
{
}

} // verus!
