//! The scope graph of one domain.

use vstd::prelude::*;

use super::path::Datum;

verus! {

/// The types that one scope graph is about.
pub trait ScopeDomain {
    type ScopeData: Datum;

    type Label: Datum;

    type Request: Datum;
}

/// The identity of a node of a scope graph.
#[derive(Clone, Copy, Debug, PartialEq, Eq, Hash, Structural)]
pub struct Scope {
    pub id: u64,
}

impl Datum for Scope {
    fn same(&self, other: &Self) -> (r: bool) {
        self.id == other.id
    }

    fn copied(&self) -> (r: Self) {
        *self
    }
}

/// What one node of a scope graph is.
pub enum ScopeNode<D: ScopeDomain> {
    Scope(D::ScopeData),
    Declaration(D::ScopeData),
    Reference(D::ScopeData),
}

impl<D: ScopeDomain> ScopeNode<D> {
    /// A copy of the node.
    pub fn copied(&self) -> (r: Self)
        ensures
            r == *self,
    {
        match self {
            ScopeNode::Scope(data) => ScopeNode::Scope(data.copied()),
            ScopeNode::Declaration(data) => ScopeNode::Declaration(data.copied()),
            ScopeNode::Reference(data) => ScopeNode::Reference(data.copied()),
        }
    }
}

/// A node to be published: whole, or only the edges that leave it.
pub struct GraphRender<D: ScopeDomain> {
    pub node: Scope,
    pub payload: Option<ScopeNode<D>>,
}

impl Scope {
    /// The publication of the node with all of its contents.
    pub fn render<D: ScopeDomain>(self, payload: ScopeNode<D>) -> (r: GraphRender<D>)
        ensures
            r.node == self,
            r.payload == Some(payload),
    {
        GraphRender { node: self, payload: Some(payload) }
    }

    /// The publication of edges alone.
    pub fn patch<D: ScopeDomain>(self) -> (r: GraphRender<D>)
        ensures
            r.node == self,
            r.payload is None,
    {
        GraphRender { node: self, payload: None }
    }
}

/// A scope graph as its nodes and its edges, each in the order in which they
/// came.
#[verifier::ext_equal]
pub struct GraphView<D: ScopeDomain> {
    pub nodes: Seq<(Scope, ScopeNode<D>)>,
    pub edges: Seq<(Scope, D::Label, Scope)>,
    /// How many identities were handed out.
    pub minted: nat,
}

/// The node has contents.
pub open spec fn is_present<D: ScopeDomain>(v: GraphView<D>, node: Scope) -> bool {
    exists|i: int| 0 <= i < v.nodes.len() && (#[trigger] v.nodes[i]).0 == node
}

/// Where the contents of a node are.
pub open spec fn place_of<D: ScopeDomain>(v: GraphView<D>, node: Scope) -> int {
    choose|i: int| 0 <= i < v.nodes.len() && (#[trigger] v.nodes[i]).0 == node
}

/// The contents of a node.
pub open spec fn payload_of<D: ScopeDomain>(v: GraphView<D>, node: Scope) -> Option<ScopeNode<D>> {
    if is_present(v, node) {
        Some(v.nodes[place_of(v, node)].1)
    } else {
        None
    }
}

/// The graph with contents given to a node, new or in place of the old.
pub open spec fn with_node<D: ScopeDomain>(
    v: GraphView<D>,
    node: Scope,
    payload: ScopeNode<D>,
) -> GraphView<D> {
    GraphView {
        nodes: if is_present(v, node) {
            v.nodes.update(place_of(v, node), (node, payload))
        } else {
            v.nodes.push((node, payload))
        },
        ..v
    }
}

/// The graph with a new node.
pub open spec fn with_minted<D: ScopeDomain>(
    v: GraphView<D>,
    payload: ScopeNode<D>,
) -> GraphView<D> {
    GraphView {
        nodes: v.nodes.push((Scope { id: v.minted as u64 }, payload)),
        minted: v.minted + 1,
        ..v
    }
}

/// The graph with an edge. An edge that is there already stays as it is.
pub open spec fn with_edge<D: ScopeDomain>(
    v: GraphView<D>,
    source: Scope,
    label: D::Label,
    target: Scope,
) -> GraphView<D> {
    GraphView {
        edges: if v.edges.contains((source, label, target)) {
            v.edges
        } else {
            v.edges.push((source, label, target))
        },
        ..v
    }
}

/// The graph without the contents of a node. Edges stay.
pub open spec fn without_node<D: ScopeDomain>(v: GraphView<D>, node: Scope) -> GraphView<D> {
    if is_present(v, node) {
        GraphView { nodes: v.nodes.remove(place_of(v, node)), ..v }
    } else {
        v
    }
}

/// The targets of the edges that leave `source` under `label`.
pub open spec fn targets_of<L>(edges: Seq<(Scope, L, Scope)>, source: Scope, label: L) -> Seq<Scope>
    decreases edges.len(),
{
    if edges.len() == 0 {
        Seq::empty()
    } else {
        let before = targets_of(edges.drop_last(), source, label);
        if edges.last().0 == source && edges.last().1 == label {
            before.push(edges.last().2)
        } else {
            before
        }
    }
}

/// The nodes among `list` that are declarations.
pub open spec fn declared_among<D: ScopeDomain>(v: GraphView<D>, list: Seq<Scope>) -> Seq<Scope>
    decreases list.len(),
{
    if list.len() == 0 {
        Seq::empty()
    } else {
        let before = declared_among(v, list.drop_last());
        if payload_of(v, list.last()) matches Some(ScopeNode::Declaration(_)) {
            before.push(list.last())
        } else {
            before
        }
    }
}

/// What a declaration declares.
pub open spec fn declared_data<D: ScopeDomain>(v: GraphView<D>, node: Scope) -> D::ScopeData {
    match payload_of(v, node) {
        Some(ScopeNode::Declaration(data)) => data,
        _ => arbitrary(),
    }
}

proof fn lemma_declared_among<D: ScopeDomain>(v: GraphView<D>, list: Seq<Scope>)
    ensures
        forall|i: int|
            0 <= i < declared_among(v, list).len() ==> payload_of(
                v,
                #[trigger] declared_among(v, list)[i],
            ) is Some && payload_of(v, declared_among(v, list)[i])->Some_0 is Declaration,
    decreases list.len(),
{
    if list.len() > 0 {
        lemma_declared_among(v, list.drop_last());
    }
}

/// A node is among the targets exactly where an edge leads to it.
pub proof fn lemma_targets<L>(
    edges: Seq<(Scope, L, Scope)>,
    source: Scope,
    label: L,
    target: Scope,
)
    ensures
        targets_of(edges, source, label).contains(target) == edges.contains((source, label, target)),
    decreases edges.len(),
{
    let all = targets_of(edges, source, label);
    if edges.len() > 0 {
        let rest = edges.drop_last();
        let before = targets_of(rest, source, label);
        lemma_targets(rest, source, label, target);
        if edges.contains((source, label, target)) {
            let i = edges.index_of((source, label, target));
            if i < rest.len() {
                assert(rest[i] == (source, label, target));
                let j = before.index_of(target);
                assert(all[j] == target);
            } else {
                assert(all[all.len() - 1] == target);
            }
        }
        if all.contains(target) {
            let j = all.index_of(target);
            if j < before.len() {
                assert(before[j] == target);
                let i = rest.index_of((source, label, target));
                assert(edges[i] == (source, label, target));
            } else {
                assert(edges[edges.len() - 1] == (source, label, target));
            }
        }
    }
}

/// The scope graph of one domain: scopes, declarations and references, and
/// the labelled edges between them.
pub struct ScopeGraph<D: ScopeDomain> {
    nodes: Vec<(Scope, ScopeNode<D>)>,
    edges: Vec<(Scope, D::Label, Scope)>,
    minted: u64,
}

impl<D: ScopeDomain> View for ScopeGraph<D> {
    type V = GraphView<D>;

    closed spec fn view(&self) -> GraphView<D> {
        GraphView { nodes: self.nodes@, edges: self.edges@, minted: self.minted as nat }
    }
}

impl<D: ScopeDomain> GraphView<D> {
    /// No node has contents twice, no edge is there twice, and every identity
    /// was handed out.
    pub open spec fn wf(self) -> bool {
        &&& forall|i: int, j: int|
            0 <= i < j < self.nodes.len() ==> (#[trigger] self.nodes[i]).0 != (
            #[trigger] self.nodes[j]).0
        &&& forall|i: int|
            0 <= i < self.nodes.len() ==> (#[trigger] self.nodes[i]).0.id < self.minted
        &&& self.edges.no_duplicates()
        &&& forall|i: int|
            0 <= i < self.edges.len() ==> (#[trigger] self.edges[i]).0.id < self.minted
                && self.edges[i].2.id < self.minted
        &&& self.minted <= u64::MAX
    }
}

impl<D: ScopeDomain> ScopeGraph<D> {
    /// A graph without nodes.
    pub fn new() -> (r: Self)
        ensures
            r@ == (GraphView::<D> { nodes: Seq::empty(), edges: Seq::empty(), minted: 0 }),
            r@.wf(),
    {
        let r = ScopeGraph { nodes: Vec::new(), edges: Vec::new(), minted: 0 };
        assert(r@ =~= GraphView::<D> { nodes: Seq::empty(), edges: Seq::empty(), minted: 0 });
        r
    }

    /// The place of the contents of a node.
    fn find(&self, node: Scope) -> (r: Option<usize>)
        requires
            self@.wf(),
        ensures
            match r {
                Some(i) => i < self@.nodes.len() && is_present(self@, node) && i == place_of(
                    self@,
                    node,
                ),
                None => !is_present(self@, node),
            },
    {
        let mut i: usize = 0;
        while i < self.nodes.len()
            invariant
                i <= self.nodes.len(),
                self@.nodes == self.nodes@,
                self@.wf(),
                forall|j: int| 0 <= j < i ==> (#[trigger] self.nodes@[j]).0 != node,
            decreases self.nodes.len() - i,
        {
            if self.nodes[i].0.id == node.id {
                assert(self@.nodes[i as int].0 == node);
                return Some(i);
            }
            i += 1;
        }
        None
    }

    fn mint(&mut self, payload: ScopeNode<D>) -> (r: Scope)
        requires
            old(self)@.wf(),
            old(self)@.minted < u64::MAX,
        ensures
            r.id == old(self)@.minted,
            final(self)@ == with_minted(old(self)@, payload),
            final(self)@.wf(),
    {
        let node = Scope { id: self.minted };
        self.nodes.push((node, payload));
        self.minted = self.minted + 1;
        assert(self@ =~= with_minted(old(self)@, payload));
        node
    }

    fn link(&mut self, source: Scope, label: D::Label, target: Scope)
        requires
            old(self)@.wf(),
            source.id < old(self)@.minted,
            target.id < old(self)@.minted,
        ensures
            final(self)@ == with_edge(old(self)@, source, label, target),
            final(self)@.wf(),
    {
        let mut i: usize = 0;
        while i < self.edges.len()
            invariant
                i <= self.edges.len(),
                *self == *old(self),
                self@.wf(),
                forall|j: int| 0 <= j < i ==> #[trigger] self.edges@[j] != (source, label, target),
            decreases self.edges.len() - i,
        {
            let edge = &self.edges[i];
            if edge.0.id == source.id && edge.2.id == target.id && edge.1.same(&label) {
                assert(self@.edges[i as int] == (source, label, target));
                return ;
            }
            i += 1;
        }
        assert(!self@.edges.contains((source, label, target)));
        self.edges.push((source, label, target));
        assert(self@ =~= with_edge(old(self)@, source, label, target));
    }
}

/// Adds a scope.
pub fn scope<D: ScopeDomain>(graph: &mut ScopeGraph<D>, data: D::ScopeData) -> (r: Scope)
    requires
        old(graph)@.wf(),
        old(graph)@.minted < u64::MAX,
    ensures
        r.id == old(graph)@.minted,
        final(graph)@ == with_minted(old(graph)@, ScopeNode::Scope(data)),
        final(graph)@.wf(),
{
    graph.mint(ScopeNode::Scope(data))
}

/// Gives the contents of a scope to a node, in place of what it had.
pub fn ensure_scope<D: ScopeDomain>(graph: &mut ScopeGraph<D>, id: Scope, data: D::ScopeData)
    requires
        old(graph)@.wf(),
        id.id < old(graph)@.minted,
    ensures
        final(graph)@ == with_node(old(graph)@, id, ScopeNode::Scope(data)),
        final(graph)@.wf(),
{
    match graph.find(id) {
        Some(i) => {
            graph.nodes.set(i, (id, ScopeNode::Scope(data)));
        },
        None => {
            graph.nodes.push((id, ScopeNode::Scope(data)));
        },
    }
    assert(graph@ =~= with_node(old(graph)@, id, ScopeNode::Scope(data)));
}

/// Adds a declaration and the edge from its owner to it.
pub fn declare<D: ScopeDomain>(
    graph: &mut ScopeGraph<D>,
    owner: Scope,
    name: D::Label,
    data: D::ScopeData,
) -> (r: Scope)
    requires
        old(graph)@.wf(),
        old(graph)@.minted < u64::MAX,
        owner.id < old(graph)@.minted,
    ensures
        r.id == old(graph)@.minted,
        final(graph)@ == with_edge(
            with_minted(old(graph)@, ScopeNode::Declaration(data)),
            owner,
            name,
            r,
        ),
        final(graph)@.wf(),
{
    let declaration = graph.mint(ScopeNode::Declaration(data));
    graph.link(owner, name, declaration);
    declaration
}

/// Adds a reference, the edge from its owner to it, and the edge from it to
/// what it refers to.
pub fn reference<D: ScopeDomain>(
    graph: &mut ScopeGraph<D>,
    owner: Scope,
    name: D::Label,
    data: D::ScopeData,
    target: Scope,
)
    requires
        old(graph)@.wf(),
        old(graph)@.minted < u64::MAX,
        owner.id < old(graph)@.minted,
        target.id < old(graph)@.minted,
    ensures
        final(graph)@ == with_edge(
            with_edge(
                with_minted(old(graph)@, ScopeNode::Reference(data)),
                owner,
                name,
                Scope { id: old(graph)@.minted as u64 },
            ),
            Scope { id: old(graph)@.minted as u64 },
            name,
            target,
        ),
        final(graph)@.wf(),
{
    let reference = graph.mint(ScopeNode::Reference(data));
    graph.link(owner, name.copied(), reference);
    graph.link(reference, name, target);
}

/// Adds an edge.
pub fn edge<D: ScopeDomain>(
    graph: &mut ScopeGraph<D>,
    source: Scope,
    label: D::Label,
    target: Scope,
)
    requires
        old(graph)@.wf(),
        source.id < old(graph)@.minted,
        target.id < old(graph)@.minted,
    ensures
        final(graph)@ == with_edge(old(graph)@, source, label, target),
        final(graph)@.wf(),
{
    graph.link(source, label, target);
}

/// Takes the contents of a node away. The edges at it stay.
pub fn remove_scope<D: ScopeDomain>(graph: &mut ScopeGraph<D>, id: Scope)
    requires
        old(graph)@.wf(),
    ensures
        final(graph)@ == without_node(old(graph)@, id),
        !is_present(final(graph)@, id),
        final(graph)@.wf(),
{
    match graph.find(id) {
        Some(i) => {
            graph.nodes.remove(i);
        },
        None => {},
    }
    assert(graph@ =~= without_node(old(graph)@, id));
}

/// The contents of a node.
pub fn observe_node<D: ScopeDomain>(graph: &ScopeGraph<D>, id: Scope) -> (r: Option<&ScopeNode<D>>)
    requires
        graph@.wf(),
    ensures
        match r {
            Some(node) => payload_of(graph@, id) == Some(*node),
            None => payload_of(graph@, id) is None,
        },
{
    match graph.find(id) {
        Some(i) => Some(&graph.nodes[i].1),
        None => None,
    }
}

/// The data of a scope; nothing for a declaration or a reference.
pub fn observe_scope<D: ScopeDomain>(graph: &ScopeGraph<D>, id: Scope) -> (r: Option<&D::ScopeData>)
    requires
        graph@.wf(),
    ensures
        match r {
            Some(data) => payload_of(graph@, id) == Some(ScopeNode::<D>::Scope(*data)),
            None => !(payload_of(graph@, id) matches Some(ScopeNode::Scope(_))),
        },
{
    match observe_node(graph, id) {
        Some(ScopeNode::Scope(data)) => Some(data),
        _ => None,
    }
}

/// The nodes to which edges under one label lead.
pub fn outgoing<D: ScopeDomain>(graph: &ScopeGraph<D>, source: Scope, label: &D::Label) -> (r: Vec<
    Scope,
>)
    ensures
        r@ == targets_of(graph@.edges, source, *label),
{
    let mut out: Vec<Scope> = Vec::new();
    let mut i: usize = 0;
    while i < graph.edges.len()
        invariant
            i <= graph.edges.len(),
            graph@.edges == graph.edges@,
            out@ == targets_of(graph@.edges.take(i as int), source, *label),
        decreases graph.edges.len() - i,
    {
        proof {
            assert(graph@.edges.take(i + 1).drop_last() =~= graph@.edges.take(i as int));
        }
        let edge = &graph.edges[i];
        if edge.0.id == source.id && edge.1.same(label) {
            out.push(edge.2);
        }
        i += 1;
    }
    assert(graph@.edges.take(i as int) =~= graph@.edges);
    out
}

/// The declarations to which edges under one label lead.
pub fn declarations<D: ScopeDomain>(
    graph: &ScopeGraph<D>,
    source: Scope,
    label: &D::Label,
) -> (r: Vec<Scope>)
    requires
        graph@.wf(),
    ensures
        r@ == declared_among(graph@, targets_of(graph@.edges, source, *label)),
{
    let targets = outgoing(graph, source, label);
    let mut out: Vec<Scope> = Vec::new();
    let mut i: usize = 0;
    while i < targets.len()
        invariant
            i <= targets.len(),
            graph@.wf(),
            out@ == declared_among(graph@, targets@.take(i as int)),
        decreases targets.len() - i,
    {
        proof {
            assert(targets@.take(i + 1).drop_last() =~= targets@.take(i as int));
        }
        match observe_node(graph, targets[i]) {
            Some(ScopeNode::Declaration(_)) => {
                out.push(targets[i]);
            },
            _ => {},
        }
        i += 1;
    }
    assert(targets@.take(i as int) =~= targets@);
    out
}

/// The data of the declarations to which edges under one label lead.
pub fn resolve_name<D: ScopeDomain>(
    graph: &ScopeGraph<D>,
    source: Scope,
    label: &D::Label,
) -> (r: Vec<D::ScopeData>)
    requires
        graph@.wf(),
    ensures
        r@ == declared_among(graph@, targets_of(graph@.edges, source, *label)).map_values(
            |node: Scope| declared_data(graph@, node),
        ),
{
    let found = declarations(graph, source, label);
    let mut out: Vec<D::ScopeData> = Vec::new();
    proof {
        lemma_declared_among(graph@, targets_of(graph@.edges, source, *label));
    }
    let mut i: usize = 0;
    while i < found.len()
        invariant
            i <= found.len(),
            graph@.wf(),
            forall|j: int|
                0 <= j < found@.len() ==> payload_of(graph@, #[trigger] found@[j]) is Some
                    && payload_of(graph@, found@[j])->Some_0 is Declaration,
            out@.len() == i,
            forall|j: int| 0 <= j < i ==> #[trigger] out@[j] == declared_data(graph@, found@[j]),
        decreases found.len() - i,
    {
        assert(payload_of(graph@, found@[i as int]) is Some);
        if let Some(ScopeNode::Declaration(data)) = observe_node(graph, found[i]) {
            out.push(data.copied());
        }
        i += 1;
    }
    assert(out@ =~= found@.map_values(|node: Scope| declared_data(graph@, node)));
    out
}

/// The nodes with contents, in the order in which they came.
pub fn snapshot_nodes<D: ScopeDomain>(graph: &ScopeGraph<D>) -> (r: Vec<Scope>)
    ensures
        r@ == graph@.nodes.map_values(|node: (Scope, ScopeNode<D>)| node.0),
{
    let mut out: Vec<Scope> = Vec::new();
    let mut i: usize = 0;
    while i < graph.nodes.len()
        invariant
            i <= graph.nodes.len(),
            graph@.nodes == graph.nodes@,
            out@.len() == i,
            forall|j: int| 0 <= j < i ==> #[trigger] out@[j] == graph@.nodes[j].0,
        decreases graph.nodes.len() - i,
    {
        out.push(graph.nodes[i].0);
        i += 1;
    }
    assert(out@ =~= graph@.nodes.map_values(|node: (Scope, ScopeNode<D>)| node.0));
    out
}

/// The contents of a node of a committed graph.
pub fn snapshot_node<D: ScopeDomain>(graph: &ScopeGraph<D>, node: Scope) -> (r: Option<
    &ScopeNode<D>,
>)
    requires
        graph@.wf(),
    ensures
        match r {
            Some(payload) => payload_of(graph@, node) == Some(*payload),
            None => payload_of(graph@, node) is None,
        },
{
    observe_node(graph, node)
}

/// The data of a scope of a committed graph.
pub fn snapshot_scope<D: ScopeDomain>(graph: &ScopeGraph<D>, node: Scope) -> (r: Option<
    &D::ScopeData,
>)
    requires
        graph@.wf(),
    ensures
        match r {
            Some(data) => payload_of(graph@, node) == Some(ScopeNode::<D>::Scope(*data)),
            None => !(payload_of(graph@, node) matches Some(ScopeNode::Scope(_))),
        },
{
    observe_scope(graph, node)
}

/// The nodes to which edges of a committed graph lead.
pub fn snapshot_outgoing<D: ScopeDomain>(
    graph: &ScopeGraph<D>,
    source: Scope,
    label: &D::Label,
) -> (r: Vec<Scope>)
    ensures
        r@ == targets_of(graph@.edges, source, *label),
{
    outgoing(graph, source, label)
}

/// The declarations to which edges of a committed graph lead.
pub fn snapshot_declarations<D: ScopeDomain>(
    graph: &ScopeGraph<D>,
    source: Scope,
    label: &D::Label,
) -> (r: Vec<Scope>)
    requires
        graph@.wf(),
    ensures
        r@ == declared_among(graph@, targets_of(graph@.edges, source, *label)),
{
    declarations(graph, source, label)
}

// ---------------------------------------------------------------------------
// Laws
// ---------------------------------------------------------------------------

proof fn lemma_declared_among_grown<D: ScopeDomain>(
    v: GraphView<D>,
    w: GraphView<D>,
    list: Seq<Scope>,
)
    requires
        forall|i: int|
            0 <= i < list.len() ==> payload_of(v, #[trigger] list[i]) == payload_of(w, list[i]),
    ensures
        declared_among(v, list) == declared_among(w, list),
    decreases list.len(),
{
    if list.len() > 0 {
        assert forall|i: int| 0 <= i < list.drop_last().len() implies payload_of(
            v,
            #[trigger] list.drop_last()[i],
        ) == payload_of(w, list.drop_last()[i]) by {
            assert(payload_of(v, list[i]) == payload_of(w, list[i]));
        }
        lemma_declared_among_grown(v, w, list.drop_last());
        assert(payload_of(v, list[list.len() - 1]) == payload_of(w, list[list.len() - 1]));
    }
}

/// A declaration is found under the name by which its owner declared it,
/// behind those that were there before, and reads back its data.
pub proof fn lemma_declare_read_back<D: ScopeDomain>(
    v: GraphView<D>,
    owner: Scope,
    name: D::Label,
    data: D::ScopeData,
)
    requires
        v.wf(),
        v.minted < u64::MAX,
    ensures
        ({
            let node = Scope { id: v.minted as u64 };
            let w = with_edge(with_minted(v, ScopeNode::Declaration(data)), owner, name, node);
            &&& declared_among(w, targets_of(w.edges, owner, name)) == declared_among(
                v,
                targets_of(v.edges, owner, name),
            ).push(node)
            &&& declared_data(w, node) == data
        }),
{
    let node = Scope { id: v.minted as u64 };
    let w = with_edge(with_minted(v, ScopeNode::Declaration(data)), owner, name, node);
    let before = targets_of(v.edges, owner, name);
    assert(!v.edges.contains((owner, name, node))) by {
        if v.edges.contains((owner, name, node)) {
            let i = v.edges.index_of((owner, name, node));
            assert(v.edges[i].2.id < v.minted);
        }
    }
    assert(w.edges == v.edges.push((owner, name, node)));
    assert(w.edges.drop_last() =~= v.edges);
    assert(targets_of(w.edges, owner, name) == before.push(node));
    assert(w.nodes[v.nodes.len() as int].0 == node);
    let p = place_of(w, node);
    assert(0 <= p < w.nodes.len() && w.nodes[p].0 == node);
    assert(p == v.nodes.len()) by {
        if p < v.nodes.len() {
            assert(v.nodes[p].0.id < v.minted);
        }
    }
    assert forall|i: int| 0 <= i < before.len() implies payload_of(v, #[trigger] before[i])
        == payload_of(w, before[i]) by {
        let t = before[i];
        assert(before.contains(t));
        lemma_targets(v.edges, owner, name, t);
        let k = v.edges.index_of((owner, name, t));
        assert(v.edges[k].2.id < v.minted);
        if is_present(v, t) {
            let a = place_of(v, t);
            assert(w.nodes[a].0 == t);
            let b = place_of(w, t);
            assert(w.nodes[b].0 == t);
            assert(b < v.nodes.len());
            assert(v.nodes[b].0 == t);
            assert(a == b);
        } else if is_present(w, t) {
            let b = place_of(w, t);
            assert(w.nodes[b].0 == t);
            assert(v.nodes[b].0 == t);
        }
    }
    lemma_declared_among_grown(v, w, before);
    let all = before.push(node);
    assert(all.drop_last() =~= before);
}

/// A node whose contents were taken out has none, every other node has what it
/// had, and all edges stay.
pub proof fn lemma_removed_node_is_empty<D: ScopeDomain>(
    v: GraphView<D>,
    node: Scope,
    other: Scope,
)
    requires
        v.wf(),
    ensures
        payload_of(without_node(v, node), other) == if other == node {
            None::<ScopeNode<D>>
        } else {
            payload_of(v, other)
        },
        without_node(v, node).edges == v.edges,
{
    let w = without_node(v, node);
    if is_present(v, node) {
        let at = place_of(v, node);
        assert(v.nodes[at].0 == node);
        if is_present(w, other) {
            let b = place_of(w, other);
            let c = if b < at {
                b
            } else {
                b + 1
            };
            assert(w.nodes[b] == v.nodes[c]);
            assert(v.nodes[c].0 == other);
            if other != node {
                let a = place_of(v, other);
                assert(v.nodes[a].0 == other);
                assert(a == c);
            }
        } else if other != node && is_present(v, other) {
            let a = place_of(v, other);
            let c = if a < at {
                a
            } else {
                a - 1
            };
            assert(w.nodes[c] == v.nodes[a]);
            assert(w.nodes[c].0 == other);
        }
    }
}

/// The declarations that edges under a label lead to are all nodes with a
/// declaration at the end of such an edge, and no others.
pub proof fn lemma_declarations_are_found<D: ScopeDomain>(
    v: GraphView<D>,
    source: Scope,
    label: D::Label,
    node: Scope,
)
    ensures
        declared_among(v, targets_of(v.edges, source, label)).contains(node) <==> v.edges.contains(
            (source, label, node),
        ) && (payload_of(v, node) matches Some(ScopeNode::Declaration(_))),
{
    lemma_targets(v.edges, source, label, node);
    lemma_declared(v, targets_of(v.edges, source, label), node);
}

proof fn lemma_declared<D: ScopeDomain>(v: GraphView<D>, list: Seq<Scope>, node: Scope)
    ensures
        declared_among(v, list).contains(node) <==> list.contains(node) && (payload_of(v, node)
            matches Some(ScopeNode::Declaration(_))),
    decreases list.len(),
{
    if list.len() > 0 {
        let rest = list.drop_last();
        let before = declared_among(v, rest);
        let all = declared_among(v, list);
        lemma_declared(v, rest, node);
        if before.contains(node) {
            let k = before.index_of(node);
            assert(all[k] == node);
            let j = rest.index_of(node);
            assert(list[j] == node);
        }
        if list.contains(node) {
            let j = list.index_of(node);
            if j < rest.len() {
                assert(rest[j] == node);
            } else if payload_of(v, node) matches Some(ScopeNode::Declaration(_)) {
                assert(all[before.len() as int] == node);
            }
        }
        if all.contains(node) {
            let k = all.index_of(node);
            if k < before.len() {
                assert(before[k] == node);
            } else {
                assert(list[list.len() - 1] == node);
            }
        }
    }
}

/// What was given to a node is what is read of it, and no other node changes.
pub proof fn lemma_node_read_back<D: ScopeDomain>(
    v: GraphView<D>,
    node: Scope,
    payload: ScopeNode<D>,
    other: Scope,
)
    requires
        v.wf(),
    ensures
        payload_of(with_node(v, node, payload), other) == if other == node {
            Some(payload)
        } else {
            payload_of(v, other)
        },
{
    let w = with_node(v, node, payload);
    let at = if is_present(v, node) {
        place_of(v, node)
    } else {
        v.nodes.len() as int
    };
    assert(w.nodes[at].0 == node);
    if other == node {
        let b = place_of(w, node);
        assert(w.nodes[b].0 == node);
        assert(b == at) by {
            if b != at && b < v.nodes.len() {
                assert(v.nodes[b].0 == node);
            }
        }
    } else {
        if is_present(v, other) {
            let a = place_of(v, other);
            assert(w.nodes[a].0 == other);
            let b = place_of(w, other);
            assert(w.nodes[b].0 == other);
            assert(v.nodes[b].0 == other);
            assert(a == b);
        } else if is_present(w, other) {
            let b = place_of(w, other);
            assert(w.nodes[b].0 == other);
            assert(v.nodes[b].0 == other);
        }
    }
}

} // verus!
