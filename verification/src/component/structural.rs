//! Keyed structures: nodes with payloads, ordered children, edges, and the
//! entries by which they are found.

use std::sync::Arc;
use vstd::prelude::*;

use crate::framework::scope::path::Datum;

verus! {

/// One typed node of a structure.
///
/// `V` holds the payloads of all node types; `type_id` says which type a
/// payload has. A payload that promises no equality of its own is told apart
/// by its metadata alone.
pub struct StructuralArtifact<K, M, V> {
    pub key: K,
    pub metadata: M,
    type_id: u64,
    value: Arc<V>,
    compared: bool,
}

/// An artifact as values.
pub struct ArtifactView<K, M, V> {
    pub key: K,
    pub metadata: M,
    pub type_id: u64,
    pub value: V,
    /// The payload takes part in comparisons.
    pub compared: bool,
}

impl<K, M, V> View for StructuralArtifact<K, M, V> {
    type V = ArtifactView<K, M, V>;

    closed spec fn view(&self) -> ArtifactView<K, M, V> {
        ArtifactView {
            key: self.key,
            metadata: self.metadata,
            type_id: self.type_id,
            value: *self.value,
            compared: self.compared,
        }
    }
}

/// The payload of an artifact, asked for by its type.
pub open spec fn payload<K, M, V>(artifact: ArtifactView<K, M, V>, type_id: u64) -> Option<V> {
    if artifact.type_id == type_id {
        Some(artifact.value)
    } else {
        None
    }
}

/// A payload is read back under the type that it was put in with, and under no
/// other, whatever the metadata and whether or not it takes part in comparisons.
pub proof fn lemma_payload_reads_back<K, M, V>(
    key: K,
    metadata: M,
    type_id: u64,
    value: V,
    compared: bool,
    asked: u64,
)
    ensures
        payload(ArtifactView { key, metadata, type_id, value, compared }, asked) == if asked
            == type_id {
            Some(value)
        } else {
            None
        },
{
}

/// The first artifact equals the second.
pub open spec fn same_artifact<K, M, V>(
    a: ArtifactView<K, M, V>,
    b: ArtifactView<K, M, V>,
) -> bool {
    &&& a.key == b.key
    &&& a.metadata == b.metadata
    &&& a.type_id == b.type_id
    &&& a.compared ==> a.value == b.value
}

impl<K: Datum, V: Datum> StructuralArtifact<K, (), V> {
    /// An artifact without metadata.
    pub fn new(key: K, type_id: u64, value: V) -> (r: Self)
        ensures
            r@ == (ArtifactView { key, metadata: (), type_id, value, compared: true }),
    {
        StructuralArtifact { key, metadata: (), type_id, value: Arc::new(value), compared: true }
    }
}

impl<K: Datum, M: Datum, V: Datum> StructuralArtifact<K, M, V> {
    /// An artifact with metadata.
    pub fn with_metadata(key: K, metadata: M, type_id: u64, value: V) -> (r: Self)
        ensures
            r@ == (ArtifactView { key, metadata, type_id, value, compared: true }),
    {
        StructuralArtifact { key, metadata, type_id, value: Arc::new(value), compared: true }
    }

    /// An artifact whose payload promises no equality. Its metadata is its
    /// identity where it changes.
    pub fn from_erased(key: K, metadata: M, type_id: u64, value: Arc<V>) -> (r: Self)
        ensures
            r@ == (ArtifactView { key, metadata, type_id, value: *value, compared: false }),
    {
        StructuralArtifact { key, metadata, type_id, value, compared: false }
    }

    /// The payload, where it has the given type.
    pub fn deref(&self, type_id: u64) -> (r: Option<Arc<V>>)
        ensures
            match r {
                Some(value) => payload(self@, type_id) == Some(*value),
                None => payload(self@, type_id) is None,
            },
    {
        if self.type_id == type_id {
            Some(Arc::clone(&self.value))
        } else {
            None
        }
    }

    /// Whether the payload has the given type.
    pub fn is(&self, type_id: u64) -> (r: bool)
        ensures
            r == (self@.type_id == type_id),
    {
        self.type_id == type_id
    }

    /// Whether the artifact equals another.
    pub fn same(&self, other: &Self) -> (r: bool)
        ensures
            r == same_artifact(self@, other@),
    {
        self.key.same(&other.key) && self.metadata.same(&other.metadata) && self.type_id
            == other.type_id && (!self.compared || self.value.same(&other.value))
    }

    /// A copy that shares the payload.
    pub fn copied(&self) -> (r: Self)
        ensures
            r@ == self@,
    {
        StructuralArtifact {
            key: self.key.copied(),
            metadata: self.metadata.copied(),
            type_id: self.type_id,
            value: Arc::clone(&self.value),
            compared: self.compared,
        }
    }
}

impl Datum for () {
    fn same(&self, other: &Self) -> (r: bool) {
        true
    }

    fn copied(&self) -> (r: Self) {
    }
}

/// An entry by which a node of a structure is found.
pub struct StructureEntry<K, E, M> {
    pub entry: E,
    pub node: K,
    pub metadata: M,
}

impl<K: Datum, E: Datum, M: Datum> StructureEntry<K, E, M> {
    pub fn new(entry: E, node: K, metadata: M) -> (r: Self)
        ensures
            r.entry == entry,
            r.node == node,
            r.metadata == metadata,
    {
        StructureEntry { entry, node, metadata }
    }
}

impl<K: Datum, E: Datum, M: Datum> Datum for StructureEntry<K, E, M> {
    fn same(&self, other: &Self) -> (r: bool) {
        self.entry.same(&other.entry) && self.node.same(&other.node) && self.metadata.same(
            &other.metadata,
        )
    }

    fn copied(&self) -> (r: Self) {
        StructureEntry {
            entry: self.entry.copied(),
            node: self.node.copied(),
            metadata: self.metadata.copied(),
        }
    }
}

/// An ordered link to a child.
pub struct ChildRef<K> {
    pub slot: usize,
    pub target: K,
}

impl<K: Datum> Datum for ChildRef<K> {
    fn same(&self, other: &Self) -> (r: bool) {
        self.slot == other.slot && self.target.same(&other.target)
    }

    fn copied(&self) -> (r: Self) {
        ChildRef { slot: self.slot, target: self.target.copied() }
    }
}

/// An edge of a structure.
pub struct StructuralEdge<K, L> {
    pub source: K,
    pub label: L,
    pub target: K,
}

impl<K: Datum, L: Datum> StructuralEdge<K, L> {
    /// The node that the edge leaves.
    pub fn source(&self) -> (r: K)
        ensures
            r == self.source,
    {
        self.source.copied()
    }

    /// The node that the edge leads to.
    pub fn target(&self) -> (r: K)
        ensures
            r == self.target,
    {
        self.target.copied()
    }
}

impl<K: Datum, L: Datum> Datum for StructuralEdge<K, L> {
    fn same(&self, other: &Self) -> (r: bool) {
        self.source.same(&other.source) && self.label.same(&other.label) && self.target.same(
            &other.target,
        )
    }

    fn copied(&self) -> (r: Self) {
        StructuralEdge {
            source: self.source.copied(),
            label: self.label.copied(),
            target: self.target.copied(),
        }
    }
}

/// The facts of the list that a test picks, in order.
pub open spec fn edges_from<K, L>(edges: Seq<StructuralEdge<K, L>>, source: K) -> Seq<
    StructuralEdge<K, L>,
> {
    edges.filter(|edge: StructuralEdge<K, L>| edge.source == source)
}

/// The edges that leave one node.
pub fn edges<K: Datum, L: Datum>(list: &Vec<StructuralEdge<K, L>>, source: &K) -> (r: Vec<
    StructuralEdge<K, L>,
>)
    ensures
        r@ == edges_from(list@, *source),
{
    let ghost test = |edge: StructuralEdge<K, L>| edge.source == *source;
    let mut out: Vec<StructuralEdge<K, L>> = Vec::new();
    proof {
        reveal(Seq::filter);
        assert(list@.take(0).filter(test) =~= Seq::empty());
    }
    let mut i: usize = 0;
    while i < list.len()
        invariant
            i <= list@.len(),
            test == (|edge: StructuralEdge<K, L>| edge.source == *source),
            out@ == list@.take(i as int).filter(test),
        decreases list@.len() - i,
    {
        proof {
            assert(list@.take(i + 1).drop_last() =~= list@.take(i as int));
            reveal(Seq::filter);
        }
        if list[i].source.same(source) {
            out.push(list[i].copied());
        }
        i += 1;
    }
    assert(list@.take(i as int) =~= list@);
    out
}

/// The entries under one handle.
pub open spec fn entries_under<K, E, M>(list: Seq<StructureEntry<K, E, M>>, entry: E) -> Seq<
    StructureEntry<K, E, M>,
> {
    list.filter(|item: StructureEntry<K, E, M>| item.entry == entry)
}

/// The entries under one handle.
pub fn entries<K: Datum, E: Datum, M: Datum>(
    list: &Vec<StructureEntry<K, E, M>>,
    entry: &E,
) -> (r: Vec<StructureEntry<K, E, M>>)
    ensures
        r@ == entries_under(list@, *entry),
{
    let ghost test = |item: StructureEntry<K, E, M>| item.entry == *entry;
    let mut out: Vec<StructureEntry<K, E, M>> = Vec::new();
    proof {
        reveal(Seq::filter);
        assert(list@.take(0).filter(test) =~= Seq::empty());
    }
    let mut i: usize = 0;
    while i < list.len()
        invariant
            i <= list@.len(),
            test == (|item: StructureEntry<K, E, M>| item.entry == *entry),
            out@ == list@.take(i as int).filter(test),
        decreases list@.len() - i,
    {
        proof {
            assert(list@.take(i + 1).drop_last() =~= list@.take(i as int));
            reveal(Seq::filter);
        }
        if list[i].entry.same(entry) {
            out.push(list[i].copied());
        }
        i += 1;
    }
    assert(list@.take(i as int) =~= list@);
    out
}

// ---------------------------------------------------------------------------
// Laws
// ---------------------------------------------------------------------------

/// An artifact equals itself, whether or not its payload can be compared.
pub proof fn lemma_same_artifact_reflexive<K, M, V>(a: ArtifactView<K, M, V>)
    ensures
        same_artifact(a, a),
{
}

/// Among artifacts of one kind, equality is symmetric.
pub proof fn lemma_same_artifact_symmetric<K, M, V>(
    a: ArtifactView<K, M, V>,
    b: ArtifactView<K, M, V>,
)
    requires
        a.compared == b.compared,
        same_artifact(a, b),
    ensures
        same_artifact(b, a),
{
}

// ---------------------------------------------------------------------------
// Views

/// Access to the facts of one structure.
pub struct StructuralView<'a, K, M, V, L> {
    pub nodes: &'a Vec<StructuralArtifact<K, M, V>>,
    pub children: &'a Vec<(K, Vec<ChildRef<K>>)>,
    pub edges: &'a Vec<StructuralEdge<K, L>>,
}

/// The node with a key.
pub open spec fn is_first_node<K, M, V>(
    nodes: Seq<StructuralArtifact<K, M, V>>,
    key: K,
    i: int,
) -> bool {
    &&& 0 <= i < nodes.len()
    &&& nodes[i]@.key == key
    &&& forall|j: int| 0 <= j < i ==> (#[trigger] nodes[j])@.key != key
}

/// The children under a key.
pub open spec fn is_first_bucket<K>(
    children: Seq<(K, Vec<ChildRef<K>>)>,
    key: K,
    i: int,
) -> bool {
    &&& 0 <= i < children.len()
    &&& children[i].0 == key
    &&& forall|j: int| 0 <= j < i ==> (#[trigger] children[j]).0 != key
}

impl<'a, K: Datum, M: Datum, V: Datum, L: Datum> StructuralView<'a, K, M, V, L> {
    /// The payload of the node with a key, where there is such a node and its
    /// payload has the given type.
    pub fn artifact(&self, key: &K, type_id: u64) -> (r: Option<Arc<V>>)
        ensures
            match r {
                Some(value) => exists|i: int| #[trigger]
                    is_first_node(self.nodes@, *key, i) && payload(self.nodes@[i]@, type_id)
                        == Some(*value),
                None => forall|i: int| #[trigger]
                    is_first_node(self.nodes@, *key, i) ==> payload(self.nodes@[i]@, type_id)
                        is None,
            },
    {
        let mut i: usize = 0;
        while i < self.nodes.len()
            invariant
                i <= self.nodes@.len(),
                forall|j: int| 0 <= j < i ==> (#[trigger] self.nodes@[j])@.key != *key,
            decreases self.nodes@.len() - i,
        {
            if self.nodes[i].key.same(key) {
                assert(is_first_node(self.nodes@, *key, i as int));
                return self.nodes[i].deref(type_id);
            }
            i += 1;
        }
        None
    }

    /// The children of a node in order, where any were given to it.
    pub fn children(&self, key: &K) -> (r: Option<&'a Vec<ChildRef<K>>>)
        ensures
            match r {
                Some(list) => exists|i: int| #[trigger]
                    is_first_bucket(self.children@, *key, i) && self.children@[i].1 == *list,
                None => forall|i: int|
                    0 <= i < self.children@.len() ==> (#[trigger] self.children@[i]).0 != *key,
            },
    {
        let mut i: usize = 0;
        while i < self.children.len()
            invariant
                i <= self.children@.len(),
                forall|j: int| 0 <= j < i ==> (#[trigger] self.children@[j]).0 != *key,
            decreases self.children@.len() - i,
        {
            if self.children[i].0.same(key) {
                assert(is_first_bucket(self.children@, *key, i as int));
                return Some(&self.children[i].1);
            }
            i += 1;
        }
        None
    }

    /// The edges that leave a node.
    pub fn edges(&self, source: &K) -> (r: Vec<StructuralEdge<K, L>>)
        ensures
            r@ == edges_from(self.edges@, *source),
    {
        edges(self.edges, source)
    }

    /// The entries under one handle.
    pub fn entries<E: Datum, N: Datum>(
        &self,
        out: &Vec<StructureEntry<K, E, N>>,
        entry: &E,
    ) -> (r: Vec<StructureEntry<K, E, N>>)
        ensures
            r@ == entries_under(out@, *entry),
    {
        entries(out, entry)
    }
}

} // verus!
