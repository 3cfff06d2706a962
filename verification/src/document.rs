//! Saving and loading drawings: a document lists the live nodes and edges
//! by id, the region fills and, from format version 2 on, the layers and
//! groups. Reading the document format itself, and checking positions and
//! curve data against their bounds, happen where the payload types are
//! known; the library decides what a document turns into and which
//! document is refused, and why.

use vstd::prelude::*;
use std::collections::HashMap;
use crate::graph::{Graph, Edge};
use crate::layers::{LayerId, LayerSystem, Layer, Group, without, forest_ok, restored_from, groups_upto, same_group, same_groups};
use crate::model::{Color, FillState, GradientId};
use crate::text::{Texts, TextElement};
use crate::store::Gradients;

verus! {

/// The most nodes a document may hold.
pub const MAX_DOC_NODES: usize = 200000;

/// The most edges a document may hold.
pub const MAX_DOC_EDGES: usize = 300000;

/// The most polyline points one edge of a document may hold.
pub const MAX_POINTS_PER_EDGE: usize = 8000;

/// The most polyline points a document may hold in all.
pub const MAX_POINTS_TOTAL: usize = 2000000;

/// A node of a document: its id and its data.
pub struct NodeRecord<N> {
    pub id: u32,
    pub data: N,
}

/// An edge of a document: its id, its ends, its stroke and its geometry.
pub struct EdgeRecord<E> {
    pub id: u32,
    pub a: u32,
    pub b: u32,
    pub stroke: Option<Color>,
    pub geometry: E,
}

/// The layers and groups of a document.
pub struct LayerData {
    pub layers: Vec<Layer>,
    pub groups: Vec<Group>,
}

/// A drawing as a document.
pub struct DocumentData<N, E> {
    pub nodes: Vec<NodeRecord<N>>,
    pub edges: Vec<EdgeRecord<E>>,
    /// Region key -> fill.
    pub fills: HashMap<u32, FillState>,
    pub layers: Option<LayerData>,
}

/// Why a document was refused. Indices count within the document's nodes
/// or edges.
#[derive(Clone, Copy, Debug, PartialEq, Eq, Structural)]
pub enum LoadError {
    /// More than `MAX_DOC_NODES` nodes (code `caps_exceeded`).
    TooManyNodes,
    /// More than `MAX_DOC_EDGES` edges (code `caps_exceeded`).
    TooManyEdges,
    /// A node whose position is out of bounds (code `out_of_bounds`).
    NodeOutOfBounds(usize),
    /// An edge whose two ends are the same node (code `invalid_structure`).
    EndpointsEqual(usize),
    /// An edge with more than `MAX_POINTS_PER_EDGE` points (code `caps_exceeded`).
    TooManyPointsOnEdge(usize),
    /// The edge at which the points pass `MAX_POINTS_TOTAL` (code `caps_exceeded`).
    TooManyPointsTotal(usize),
    /// An edge whose geometry or width is out of bounds (code `out_of_bounds`).
    EdgeOutOfBounds(usize),
    /// Layers and groups that do not form a forest (code `invalid_structure`).
    InvalidLayers,
}

// ---------------------------------------------------------------------------
// Saving
// ---------------------------------------------------------------------------

/// The records of the live nodes among the first `k` slots, in id order.
pub open spec fn node_records<N>(nodes: Seq<Option<N>>, k: int) -> Seq<NodeRecord<N>>
    decreases k,
{
    if k <= 0 {
        seq![]
    } else if nodes[k - 1] is Some {
        node_records(nodes, k - 1).push(NodeRecord { id: (k - 1) as u32, data: nodes[k - 1]->0 })
    } else {
        node_records(nodes, k - 1)
    }
}

/// The ids of the live edges among the first `k` slots, in id order.
pub open spec fn live_edge_ids<E>(edges: Seq<Option<Edge<E>>>, k: int) -> Seq<u32>
    decreases k,
{
    if k <= 0 {
        seq![]
    } else if edges[k - 1] is Some {
        live_edge_ids(edges, k - 1).push((k - 1) as u32)
    } else {
        live_edge_ids(edges, k - 1)
    }
}

fn copy_layer(l: &Layer) -> (r: Layer)
    ensures
        r == *l,
{
    Layer {
        id: l.id,
        name: l.name.clone(),
        z_index: l.z_index,
        visible: l.visible,
        locked: l.locked,
        root_group: l.root_group,
    }
}

fn copy_group(g: &Group) -> (r: Group)
    ensures
        same_group(r, *g),
{
    let children = g.children.clone();
    let edges = g.edges.clone();
    proof {
        assert(children@ =~= g.children@);
        assert(edges@ =~= g.edges@);
    }
    Group {
        id: g.id,
        name: g.name.clone(),
        parent: g.parent,
        children,
        edges,
        visible: g.visible,
        locked: g.locked,
    }
}

impl<N, E> Graph<N, E> {
    /// The drawing as a document: the live nodes and edges in id order,
    /// each edge's geometry copied by `E`'s `clone`; the fills; the layers, and the groups in id order.
    pub fn to_document(&self) -> (d: DocumentData<N, E>) where N: Copy, E: Clone
        requires
            self.wf(),
        ensures
            d.nodes@ == node_records(self.nodes@, self.nodes@.len() as int),
            d.edges@.len() == live_edge_ids(self.edges@, self.edges@.len() as int).len(),
            forall|j: int|
                0 <= j < d.edges@.len() ==> {
                    let id = live_edge_ids(self.edges@, self.edges@.len() as int)[j];
                    let e = self.edges@[id as int]->0;
                    &&& (#[trigger] d.edges@[j]).id == id
                    &&& d.edges@[j].a == e.a
                    &&& d.edges@[j].b == e.b
                    &&& d.edges@[j].stroke == e.stroke
                    &&& cloned::<E>(e.geometry, d.edges@[j].geometry)
                },
            d.fills@ == self.fills@,
            d.layers matches Some(ld) && ld.layers@ == self.layer_system.layers@ && same_groups(
                ld.groups@,
                groups_upto(self.layer_system.groups@, self.layer_system.next_id as int),
            ),
    {
        let mut nodes: Vec<NodeRecord<N>> = Vec::new();
        let mut i: usize = 0;
        while i < self.nodes.len()
            invariant
                i <= self.nodes@.len(),
                self.nodes@.len() <= u32::MAX,
                nodes@ == node_records(self.nodes@, i as int),
            decreases self.nodes@.len() - i,
        {
            match &self.nodes[i] {
                Some(n) => {
                    nodes.push(NodeRecord { id: i as u32, data: *n });
                },
                None => {},
            }
            i = i + 1;
        }
        let mut edges: Vec<EdgeRecord<E>> = Vec::new();
        let ghost all = live_edge_ids(self.edges@, self.edges@.len() as int);
        let mut k: usize = 0;
        while k < self.edges.len()
            invariant
                k <= self.edges@.len(),
                self.edges@.len() <= u32::MAX,
                edges@.len() == live_edge_ids(self.edges@, k as int).len(),
                forall|j: int|
                    0 <= j < edges@.len() ==> {
                        let id = live_edge_ids(self.edges@, k as int)[j];
                        let e = self.edges@[id as int]->0;
                        &&& (#[trigger] edges@[j]).id == id
                        &&& edges@[j].a == e.a
                        &&& edges@[j].b == e.b
                        &&& edges@[j].stroke == e.stroke
                        &&& cloned::<E>(e.geometry, edges@[j].geometry)
                    },
            decreases self.edges@.len() - k,
        {
            let ghost before = edges@;
            match &self.edges[k] {
                Some(e) => {
                    edges.push(EdgeRecord { id: k as u32, a: e.a, b: e.b, stroke: e.stroke, geometry: e.geometry.clone() });
                    proof {
                        assert forall|j: int| 0 <= j < edges@.len() - 1 implies #[trigger] edges@[j] == before[j] by {}
                    }
                },
                None => {},
            }
            k = k + 1;
        }
        let fills = self.fills.clone();
        let mut layers: Vec<Layer> = Vec::new();
        let mut li: usize = 0;
        while li < self.layer_system.layers.len()
            invariant
                li <= self.layer_system.layers@.len(),
                layers@ == self.layer_system.layers@.subrange(0, li as int),
            decreases self.layer_system.layers@.len() - li,
        {
            layers.push(copy_layer(&self.layer_system.layers[li]));
            li = li + 1;
            proof {
                assert(layers@ =~= self.layer_system.layers@.subrange(0, li as int));
            }
        }
        proof {
            assert(layers@ =~= self.layer_system.layers@);
        }
        let mut groups: Vec<Group> = Vec::new();
        let mut gi: LayerId = 0;
        while gi < self.layer_system.next_id
            invariant
                gi <= self.layer_system.next_id,
                same_groups(groups@, groups_upto(self.layer_system.groups@, gi as int)),
            decreases self.layer_system.next_id - gi,
        {
            match self.layer_system.groups.get(&gi) {
                Some(g) => {
                    let ghost before = groups@;
                    groups.push(copy_group(g));
                    proof {
                        assert forall|j: int| 0 <= j < groups@.len() - 1 implies #[trigger] groups@[j] == before[j] by {}
                    }
                },
                None => {},
            }
            gi = gi + 1;
        }
        DocumentData { nodes, edges, fills, layers: Some(LayerData { layers, groups }) }
    }
}

} // verus!

verus! {

// ---------------------------------------------------------------------------
// Loading
// ---------------------------------------------------------------------------

/// The largest node id of `ns`; 0 for none.
pub open spec fn max_node_id<N>(ns: Seq<NodeRecord<N>>) -> nat
    decreases ns.len(),
{
    if ns.len() == 0 {
        0
    } else if ns.last().id > max_node_id(ns.drop_last()) {
        ns.last().id as nat
    } else {
        max_node_id(ns.drop_last())
    }
}

/// The largest edge id of `es`; 0 for none.
pub open spec fn max_edge_id<E>(es: Seq<EdgeRecord<E>>) -> nat
    decreases es.len(),
{
    if es.len() == 0 {
        0
    } else if es.last().id > max_edge_id(es.drop_last()) {
        es.last().id as nat
    } else {
        max_edge_id(es.drop_last())
    }
}

/// `len` slots holding the first `k` nodes of `ns`, each at its id, a later
/// node with the same id replacing an earlier one.
pub open spec fn placed_nodes<N>(ns: Seq<NodeRecord<N>>, k: int, len: nat) -> Seq<Option<N>>
    decreases k,
{
    if k <= 0 {
        Seq::new(len, |i: int| None::<N>)
    } else {
        placed_nodes(ns, k - 1, len).update(ns[k - 1].id as int, Some(ns[k - 1].data))
    }
}

/// Node slot `id` of `nodes` exists and holds a node.
pub open spec fn has_node<N>(nodes: Seq<Option<N>>, id: u32) -> bool {
    (id as int) < nodes.len() && nodes[id as int] is Some
}

/// The edge that record `r` describes.
pub open spec fn edge_of<E>(r: EdgeRecord<E>) -> Edge<E> {
    Edge { a: r.a, b: r.b, stroke: r.stroke, geometry: r.geometry }
}

/// `len` slots holding those of the first `k` edges of `es` whose two ends
/// are nodes of `nodes`, each at its id, a later such edge with the same id
/// replacing an earlier one.
pub open spec fn placed_edges<N, E>(es: Seq<EdgeRecord<E>>, nodes: Seq<Option<N>>, k: int, len: nat) -> Seq<
    Option<Edge<E>>,
>
    decreases k,
{
    if k <= 0 {
        Seq::new(len, |i: int| None::<Edge<E>>)
    } else if has_node(nodes, es[k - 1].a) && has_node(nodes, es[k - 1].b) {
        placed_edges(es, nodes, k - 1, len).update(es[k - 1].id as int, Some(edge_of(es[k - 1])))
    } else {
        placed_edges(es, nodes, k - 1, len)
    }
}

/// The ids of those of the first `k` edges of `es` whose ends are nodes of
/// `nodes`, in document order.
pub open spec fn placed_edge_ids<N, E>(es: Seq<EdgeRecord<E>>, nodes: Seq<Option<N>>, k: int) -> Seq<u32>
    decreases k,
{
    if k <= 0 {
        seq![]
    } else if has_node(nodes, es[k - 1].a) && has_node(nodes, es[k - 1].b) {
        placed_edge_ids(es, nodes, k - 1).push(es[k - 1].id)
    } else {
        placed_edge_ids(es, nodes, k - 1)
    }
}

/// The edges of a group to which the edges `ids` are added one after the
/// other, an edge added again moving to the end.
pub open spec fn added_in_order(ids: Seq<u32>) -> Seq<u32>
    decreases ids.len(),
{
    if ids.len() == 0 {
        seq![]
    } else {
        without(added_in_order(ids.drop_last()), ids.last()).push(ids.last())
    }
}

/// The first position from `i` on, below `n`, whose flag in `ok` is false.
pub open spec fn first_unflagged(ok: Seq<bool>, i: int, n: int) -> Option<int>
    decreases n - i,
{
    if i >= n || i < 0 {
        None
    } else if !ok[i] {
        Some(i)
    } else {
        first_unflagged(ok, i + 1, n)
    }
}

/// The first problem among the edges from position `k` on, with `total`
/// polyline points counted before: equal ends, too many points on the
/// edge, too many points so far, or data out of bounds (`ok` holds one
/// flag per node, then one per edge).
pub open spec fn edge_problem<E>(
    es: Seq<EdgeRecord<E>>,
    ok: Seq<bool>,
    points: Seq<usize>,
    n_nodes: int,
    k: int,
    total: int,
) -> Option<LoadError>
    decreases es.len() - k,
{
    if k < 0 || k >= es.len() {
        None
    } else if es[k].a == es[k].b {
        Some(LoadError::EndpointsEqual(k as usize))
    } else if points[k] > MAX_POINTS_PER_EDGE {
        Some(LoadError::TooManyPointsOnEdge(k as usize))
    } else if total + points[k] > MAX_POINTS_TOTAL {
        Some(LoadError::TooManyPointsTotal(k as usize))
    } else if !ok[n_nodes + k] {
        Some(LoadError::EdgeOutOfBounds(k as usize))
    } else {
        edge_problem(es, ok, points, n_nodes, k + 1, total + points[k])
    }
}

/// The reason a document is refused, checked in this order: the node
/// count, the edge count, each node's position, then each edge in turn.
pub open spec fn load_problem<N, E>(
    ns: Seq<NodeRecord<N>>,
    es: Seq<EdgeRecord<E>>,
    ok: Seq<bool>,
    points: Seq<usize>,
) -> Option<LoadError> {
    if ns.len() > MAX_DOC_NODES {
        Some(LoadError::TooManyNodes)
    } else if es.len() > MAX_DOC_EDGES {
        Some(LoadError::TooManyEdges)
    } else if first_unflagged(ok, 0, ns.len() as int) is Some {
        Some(LoadError::NodeOutOfBounds(first_unflagged(ok, 0, ns.len() as int)->0 as usize))
    } else {
        edge_problem(es, ok, points, ns.len() as int, 0, 0)
    }
}

/// No edge of `es` has equal ends.
pub open spec fn no_loops<E>(es: Seq<EdgeRecord<E>>) -> bool {
    forall|k: int| 0 <= k < es.len() ==> (#[trigger] es[k]).a != es[k].b
}

/// Without a problem from position `k` on, no edge from there on has equal ends.
proof fn lemma_no_problem_no_loops<E>(es: Seq<EdgeRecord<E>>, ok: Seq<bool>, points: Seq<usize>, n: int, k: int, total: int)
    requires
        0 <= k <= es.len(),
        edge_problem(es, ok, points, n, k, total) is None,
    ensures
        forall|j: int| k <= j < es.len() ==> (#[trigger] es[j]).a != es[j].b,
    decreases es.len() - k,
{
    if k < es.len() {
        lemma_no_problem_no_loops(es, ok, points, n, k + 1, total + points[k]);
    }
}

/// The problem of a document, if any.
fn find_problem<N, E>(doc: &DocumentData<N, E>, ok: &[bool], points: &[usize]) -> (r: Option<LoadError>)
    requires
        ok@.len() == doc.nodes@.len() + doc.edges@.len(),
        points@.len() == doc.edges@.len(),
    ensures
        r == load_problem(doc.nodes@, doc.edges@, ok@, points@),
        r is None ==> no_loops(doc.edges@),
{
    let n = doc.nodes.len();
    if n > MAX_DOC_NODES {
        return Some(LoadError::TooManyNodes);
    }
    if doc.edges.len() > MAX_DOC_EDGES {
        return Some(LoadError::TooManyEdges);
    }
    let mut i: usize = 0;
    while i < n
        invariant
            n == doc.nodes@.len(),
            n <= MAX_DOC_NODES,
            doc.edges@.len() <= MAX_DOC_EDGES,
            ok@.len() == doc.nodes@.len() + doc.edges@.len(),
            i <= n,
            first_unflagged(ok@, 0, n as int) == first_unflagged(ok@, i as int, n as int),
        decreases n - i,
    {
        if !ok[i] {
            return Some(LoadError::NodeOutOfBounds(i));
        }
        i = i + 1;
    }
    let m = doc.edges.len();
    let mut k: usize = 0;
    let mut total: usize = 0;
    while k < m
        invariant
            n == doc.nodes@.len(),
            m == doc.edges@.len(),
            m <= MAX_DOC_EDGES,
            n <= MAX_DOC_NODES,
            first_unflagged(ok@, 0, n as int) is None,
            ok@.len() == n + m,
            points@.len() == m,
            k <= m,
            total <= MAX_POINTS_TOTAL,
            edge_problem(doc.edges@, ok@, points@, n as int, 0, 0) == edge_problem(
                doc.edges@,
                ok@,
                points@,
                n as int,
                k as int,
                total as int,
            ),
            edge_problem(doc.edges@, ok@, points@, n as int, k as int, total as int) is None ==> forall|j: int|
                0 <= j < k ==> (#[trigger] doc.edges@[j]).a != doc.edges@[j].b,
        decreases m - k,
    {
        let e = &doc.edges[k];
        if e.a == e.b {
            return Some(LoadError::EndpointsEqual(k));
        }
        if points[k] > MAX_POINTS_PER_EDGE {
            return Some(LoadError::TooManyPointsOnEdge(k));
        }
        if total + points[k] > MAX_POINTS_TOTAL {
            return Some(LoadError::TooManyPointsTotal(k));
        }
        if !ok[n + k] {
            return Some(LoadError::EdgeOutOfBounds(k));
        }
        total = total + points[k];
        k = k + 1;
    }
    None
}

} // verus!

verus! {

/// The layer forest that migrating a document without layers gives: one
/// layer (id 0) with root group 1, holding the edges `ids` in the order
/// they were added.
pub open spec fn migrated(ls: LayerSystem, ids: Seq<u32>) -> bool {
    &&& ls.layers@.len() == 1
    &&& ls.layers@[0].id == 0
    &&& ls.layers@[0].root_group == 1
    &&& ls.groups@.dom() == set![1u32]
    &&& ls.edge_to_group@ == Map::new(|e: u32| ids.contains(e), |e: u32| 1u32)
    &&& ls.groups@[1].edges@ == added_in_order(ids)
}

fn empty_slots<T>(len: usize) -> (v: Vec<Option<T>>)
    ensures
        v@ == Seq::new(len as nat, |i: int| None::<T>),
{
    let mut v: Vec<Option<T>> = Vec::new();
    while v.len() < len
        invariant
            v@.len() <= len,
            forall|i: int| 0 <= i < v@.len() ==> (#[trigger] v@[i]) is None,
        decreases len - v@.len(),
    {
        v.push(None);
    }
    assert(v@ =~= Seq::new(len as nat, |i: int| None::<T>));
    v
}

impl<N, E> Graph<N, E> {
    /// The layer forest for a document without layers: one layer whose
    /// root group holds the edges `placed`, added in order.
    fn migrate(placed: &Vec<u32>) -> (ls: LayerSystem)
        ensures
            ls.wf(),
            migrated(ls, placed@),
    {
        let ghost ids = placed@;
        let mut ls = LayerSystem::new();
        proof {
            assert(ids.take(0) =~= Seq::<u32>::empty());
            assert(ls.edge_to_group@ =~= Map::new(|e: u32| ids.take(0).contains(e), |e: u32| 1u32));
            assert(ls.groups@[1].edges@ =~= added_in_order(ids.take(0)));
        }
        let mut q: usize = 0;
        while q < placed.len()
            invariant
                ls.wf(),
                placed@ == ids,
                q <= ids.len(),
                migrated(ls, ids.take(q as int)),
            decreases ids.len() - q,
        {
            let ghost before = ls;
            let e = placed[q];
            ls.add_edge_to_group(e, 1);
            proof {
                let t0 = ids.take(q as int);
                let t1 = ids.take(q + 1);
                assert(t1 =~= t0.push(e));
                assert(t1.drop_last() =~= t0);
                assert(ls.edge_to_group@ =~= Map::new(|x: u32| t1.contains(x), |x: u32| 1u32)) by {
                    assert forall|x: u32| #[trigger] t1.contains(x) <==> t0.contains(x) || x == e by {
                        if t0.contains(x) {
                            let w = choose|w: int| 0 <= w < t0.len() && t0[w] == x;
                            assert(t1[w] == x);
                        }
                        if x == e {
                            assert(t1[q as int] == x);
                        }
                        if t1.contains(x) && x != e {
                            let w = choose|w: int| 0 <= w < t1.len() && t1[w] == x;
                            assert(t0[w] == x);
                        }
                    }
                }
                assert(ls.groups@.dom() =~= set![1u32]);
            }
            q = q + 1;
        }
        proof {
            assert(ids.take(ids.len() as int) =~= ids);
        }
        ls
    }

    /// Replace the drawing by document `doc`. `ok` holds one flag per node
    /// and then one per edge, telling whether its data is within bounds;
    /// `points` holds the number of polyline points of each edge. A refused
    /// document leaves the drawing unchanged and gives the first problem
    /// (see `load_problem`). Otherwise nodes and edges take the slots of
    /// their ids (as many slots as the largest id needs), an edge is kept
    /// when both its ends are nodes of the document, the fills become the
    /// document's, the shapes stay as they were, and a document without layers
    /// gets one layer whose group holds the loaded edges.
    pub fn load_document(&mut self, doc: DocumentData<N, E>, ok: &[bool], points: &[usize]) -> (r: Result<(), LoadError>) where N: Copy
        requires
            old(self).wf(),
            ok@.len() == doc.nodes@.len() + doc.edges@.len(),
            points@.len() == doc.edges@.len(),
            forall|i: int| 0 <= i < doc.nodes@.len() ==> (#[trigger] doc.nodes@[i]).id < u32::MAX,
            forall|k: int| 0 <= k < doc.edges@.len() ==> (#[trigger] doc.edges@[k]).id < u32::MAX,
        ensures
            final(self).wf(),
            r is Err ==> *final(self) == *old(self),
            load_problem(doc.nodes@, doc.edges@, ok@, points@) matches Some(p) ==> r == Err::<(), LoadError>(p),
            load_problem(doc.nodes@, doc.edges@, ok@, points@) is None && doc.layers is None ==> r is Ok,
            load_problem(doc.nodes@, doc.edges@, ok@, points@) is None ==> (doc.layers matches Some(ld) ==> (r is Ok
                <==> forest_ok(ld.layers@, ld.groups@)) && (r is Err ==> r == Err::<(), LoadError>(LoadError::InvalidLayers))),
            r is Ok ==> {
                let nodes = placed_nodes(doc.nodes@, doc.nodes@.len() as int, max_node_id(doc.nodes@) + 1);
                &&& final(self).nodes@ == nodes
                &&& final(self).edges@ == placed_edges(doc.edges@, nodes, doc.edges@.len() as int, max_edge_id(doc.edges@) + 1)
                &&& final(self).fills@ == doc.fills@
                &&& final(self).shapes@ == old(self).shapes@
                &&& final(self).geom_ver == old(self).geom_ver.wrapping_add(1)
                &&& doc.layers is None ==> migrated(
                    final(self).layer_system,
                    placed_edge_ids(doc.edges@, nodes, doc.edges@.len() as int),
                )
                &&& doc.layers matches Some(ld) ==> restored_from(final(self).layer_system, ld.layers@, ld.groups@)
            },
    {
        let ghost ns = doc.nodes@;
        let ghost es = doc.edges@;
        if let Some(p) = find_problem(&doc, ok, points) {
            return Err(p);
        }
        let DocumentData { nodes, edges, fills, layers } = doc;
        let restored: Option<LayerSystem> = match layers {
            Some(ld) => {
                let LayerData { layers, groups } = ld;
                match LayerSystem::restore(layers, groups) {
                    Some(sys) => Some(sys),
                    None => {
                        return Err(LoadError::InvalidLayers);
                    },
                }
            },
            None => None,
        };
        assert(restored is Some <==> layers is Some);
        // Node slots.
        let mut max_n: u32 = 0;
        let mut i: usize = 0;
        while i < nodes.len()
            invariant
                nodes@ == ns,
                i <= ns.len(),
                max_n == max_node_id(ns.take(i as int)),
            decreases ns.len() - i,
        {
            proof {
                assert(ns.take(i + 1).drop_last() =~= ns.take(i as int));
            }
            if nodes[i].id > max_n {
                max_n = nodes[i].id;
            }
            i = i + 1;
        }
        proof {
            assert(ns.take(ns.len() as int) =~= ns);
        }
        proof {
            lemma_max_node_id_in(ns);
        }
        assert(max_n < u32::MAX);
        let nlen = max_n as usize + 1;
        let mut nslots: Vec<Option<N>> = empty_slots(nlen);
        let mut i: usize = 0;
        while i < nodes.len()
            invariant
                nodes@ == ns,
                i <= ns.len(),
                nlen == max_node_id(ns) + 1,
                forall|q: int| 0 <= q < ns.len() ==> (#[trigger] ns[q]).id <= max_node_id(ns),
                nslots@ == placed_nodes(ns, i as int, nlen as nat),
                nslots@.len() == nlen,
                nlen <= u32::MAX,
            decreases ns.len() - i,
        {
            let id = nodes[i].id as usize;
            assert(ns[i as int].id <= max_node_id(ns));
            nslots.set(id, Some(nodes[i].data));
            i = i + 1;
        }
        let ghost nodes_final = nslots@;
        assert(nodes_final.len() <= u32::MAX);
        // Edge slots.
        let mut max_e: u32 = 0;
        let mut k: usize = 0;
        while k < edges.len()
            invariant
                edges@ == es,
                k <= es.len(),
                max_e == max_edge_id(es.take(k as int)),
            decreases es.len() - k,
        {
            proof {
                assert(es.take(k + 1).drop_last() =~= es.take(k as int));
            }
            if edges[k].id > max_e {
                max_e = edges[k].id;
            }
            k = k + 1;
        }
        proof {
            assert(es.take(es.len() as int) =~= es);
        }
        proof {
            lemma_max_edge_id_in(es);
        }
        assert(max_e < u32::MAX);
        let elen = max_e as usize + 1;
        let mut eslots: Vec<Option<Edge<E>>> = empty_slots(elen);
        let mut placed: Vec<u32> = Vec::new();
        let m = edges.len();
        let mut rest = edges;
        let mut edges: Vec<EdgeRecord<E>> = Vec::new();
        while rest.len() > 0
            invariant
                m == es.len(),
                rest@.len() + edges@.len() == m,
                rest@ == es.take(rest@.len() as int),
                forall|q: int| 0 <= q < edges@.len() ==> #[trigger] edges@[q] == es[m - 1 - q],
            decreases rest@.len(),
        {
            let ghost r0 = rest@;
            let rec = rest.pop().unwrap();
            proof {
                assert(rest@ =~= es.take(rest@.len() as int));
                assert(rec == r0[r0.len() - 1]);
            }
            edges.push(rec);
        }
        let mut k: usize = 0;
        while k < m
            invariant
                m == es.len(),
                edges@.len() == m - k,
                forall|q: int| 0 <= q < edges@.len() ==> #[trigger] edges@[q] == es[m - 1 - q],
                k <= m,
                elen == max_edge_id(es) + 1,
                forall|q: int| 0 <= q < es.len() ==> (#[trigger] es[q]).id <= max_edge_id(es),
                no_loops(es),
                nslots@ == nodes_final,
                eslots@ == placed_edges(es, nodes_final, k as int, elen as nat),
                eslots@.len() == elen,
                elen <= u32::MAX,
                nodes_final.len() <= u32::MAX,
                placed@ == placed_edge_ids(es, nodes_final, k as int),
                forall|j: int|
                    0 <= j < eslots@.len() && #[trigger] eslots@[j] is Some ==> {
                        let e = eslots@[j]->0;
                        e.a != e.b && has_node(nodes_final, e.a) && has_node(nodes_final, e.b)
                    },
            decreases m - k,
        {
            let rec = edges.pop().unwrap();
            assert(rec == es[k as int]);
            let a_ok = (rec.a as usize) < nslots.len() && nslots[rec.a as usize].is_some();
            let b_ok = (rec.b as usize) < nslots.len() && nslots[rec.b as usize].is_some();
            if a_ok && b_ok {
                let id = rec.id;
                assert(es[k as int].id <= max_edge_id(es));
                assert(es[k as int].a != es[k as int].b);
                let ghost s0 = eslots@;
                eslots.set(id as usize, Some(Edge { a: rec.a, b: rec.b, stroke: rec.stroke, geometry: rec.geometry }));
                placed.push(id);
                proof {
                    assert forall|j: int|
                        0 <= j < eslots@.len() && #[trigger] eslots@[j] is Some implies {
                            let e = eslots@[j]->0;
                            e.a != e.b && has_node(nodes_final, e.a) && has_node(nodes_final, e.b)
                        } by {
                        if j != id as int {
                            assert(eslots@[j] == s0[j]);
                        }
                    }
                }
            }
            k = k + 1;
        }
        // Layers.
        let ls = match restored {
            Some(sys) => sys,
            None => Self::migrate(&placed),
        };
        assert(nslots@.len() <= u32::MAX && eslots@.len() <= u32::MAX);
        self.nodes = nslots;
        self.edges = eslots;
        self.fills = fills;
        self.layer_system = ls;
        self.bump();
        proof {
            assert forall|j: int| #[trigger] self.shape_live(j) implies self.shapes@[j]->0.id == j by {
                assert(old(self).shape_live(j));
            }
            assert forall|j: int| #[trigger] self.edge_live(j) implies {
                let e = self.edges@[j]->0;
                &&& e.a != e.b
                &&& self.node_live(e.a as int)
                &&& self.node_live(e.b as int)
            } by {
                assert(self.edges@[j] is Some);
            }
        }
        Ok(())
    }
}

/// Every node id of `ns` is at most the largest, which is one of them or 0.
proof fn lemma_max_node_id_in<N>(ns: Seq<NodeRecord<N>>)
    ensures
        forall|q: int| 0 <= q < ns.len() ==> (#[trigger] ns[q]).id <= max_node_id(ns),
        max_node_id(ns) == 0 || exists|q: int| 0 <= q < ns.len() && ns[q].id == max_node_id(ns),
    decreases ns.len(),
{
    if ns.len() > 0 {
        lemma_max_node_id_in(ns.drop_last());
        assert forall|q: int| 0 <= q < ns.len() implies (#[trigger] ns[q]).id <= max_node_id(ns) by {
            if q < ns.len() - 1 {
                assert(ns.drop_last()[q] == ns[q]);
            }
        }
        if max_node_id(ns) != 0 && max_node_id(ns) != ns.last().id {
            let q = choose|q: int| 0 <= q < ns.drop_last().len() && ns.drop_last()[q].id == max_node_id(ns.drop_last());
            assert(ns[q] == ns.drop_last()[q]);
        }
    }
}

/// Every edge id of `es` is at most the largest, which is one of them or 0.
proof fn lemma_max_edge_id_in<E>(es: Seq<EdgeRecord<E>>)
    ensures
        forall|q: int| 0 <= q < es.len() ==> (#[trigger] es[q]).id <= max_edge_id(es),
        max_edge_id(es) == 0 || exists|q: int| 0 <= q < es.len() && es[q].id == max_edge_id(es),
    decreases es.len(),
{
    if es.len() > 0 {
        lemma_max_edge_id_in(es.drop_last());
        assert forall|q: int| 0 <= q < es.len() implies (#[trigger] es[q]).id <= max_edge_id(es) by {
            if q < es.len() - 1 {
                assert(es.drop_last()[q] == es[q]);
            }
        }
        if max_edge_id(es) != 0 && max_edge_id(es) != es.last().id {
            let q = choose|q: int| 0 <= q < es.drop_last().len() && es.drop_last()[q].id == max_edge_id(es.drop_last());
            assert(es[q] == es.drop_last()[q]);
        }
    }
}

} // verus!

verus! {

/// `len` slots holding the first `k` text elements of `ts`, each at its
/// id, a later element with the same id replacing an earlier one.
pub open spec fn placed_texts<F>(ts: Seq<TextElement<F>>, k: int, len: nat) -> Seq<Option<TextElement<F>>>
    decreases k,
{
    if k <= 0 {
        Seq::new(len, |i: int| None::<TextElement<F>>)
    } else {
        placed_texts(ts, k - 1, len).update(ts[k - 1].id as int, Some(ts[k - 1]))
    }
}

/// The largest id of `ts`; 0 for none.
pub open spec fn max_text_id<F>(ts: Seq<TextElement<F>>) -> nat
    decreases ts.len(),
{
    if ts.len() == 0 {
        0
    } else if ts.last().id > max_text_id(ts.drop_last()) {
        ts.last().id as nat
    } else {
        max_text_id(ts.drop_last())
    }
}

proof fn lemma_max_text_id_in<F>(ts: Seq<TextElement<F>>)
    ensures
        forall|q: int| 0 <= q < ts.len() ==> (#[trigger] ts[q]).id <= max_text_id(ts),
        max_text_id(ts) == 0 || exists|q: int| 0 <= q < ts.len() && ts[q].id == max_text_id(ts),
    decreases ts.len(),
{
    if ts.len() > 0 {
        lemma_max_text_id_in(ts.drop_last());
        assert forall|q: int| 0 <= q < ts.len() implies (#[trigger] ts[q]).id <= max_text_id(ts) by {
            if q < ts.len() - 1 {
                assert(ts.drop_last()[q] == ts[q]);
            }
        }
        if max_text_id(ts) != 0 && max_text_id(ts) != ts.last().id {
            let q = choose|q: int| 0 <= q < ts.drop_last().len() && ts.drop_last()[q].id == max_text_id(ts.drop_last());
            assert(ts[q] == ts.drop_last()[q]);
        }
    }
}

/// The items of `v` in reverse order.
fn reversed<T>(v: Vec<T>) -> (r: Vec<T>)
    ensures
        r@.len() == v@.len(),
        forall|q: int| 0 <= q < r@.len() ==> #[trigger] r@[q] == v@[v@.len() - 1 - q],
{
    let ghost vs = v@;
    let m = v.len();
    let mut rest = v;
    let mut out: Vec<T> = Vec::new();
    while rest.len() > 0
        invariant
            m == vs.len(),
            rest@.len() + out@.len() == m,
            rest@ == vs.take(rest@.len() as int),
            forall|q: int| 0 <= q < out@.len() ==> #[trigger] out@[q] == vs[m - 1 - q],
        decreases rest@.len(),
    {
        let ghost r0 = rest@;
        let x = rest.pop().unwrap();
        proof {
            assert(rest@ =~= vs.take(rest@.len() as int));
            assert(x == r0[r0.len() - 1]);
        }
        out.push(x);
    }
    out
}

impl<F> Texts<F> {
    /// Replace the text elements by those of a document: none when the
    /// document has no texts; otherwise each element at the slot of its
    /// id, with as many slots as the largest id needs.
    pub fn load_texts(&mut self, texts: Option<Vec<TextElement<F>>>)
        requires
            texts matches Some(ts) ==> forall|i: int| 0 <= i < ts@.len() ==> (#[trigger] ts@[i]).id < u32::MAX,
        ensures
            final(self).zero == old(self).zero,
            final(self).default_style == old(self).default_style,
            texts is None ==> final(self).slots.items@.len() == 0,
            texts matches Some(ts) ==> final(self).slots.items@ == placed_texts(ts@, ts@.len() as int, max_text_id(ts@) + 1),
            final(self).wf(),
    {
        match texts {
            None => {
                self.slots.items = Vec::new();
            },
            Some(ts) => {
                let ghost tv = ts@;
                let mut max_t: u32 = 0;
                let mut i: usize = 0;
                while i < ts.len()
                    invariant
                        ts@ == tv,
                        i <= tv.len(),
                        max_t == max_text_id(tv.take(i as int)),
                    decreases tv.len() - i,
                {
                    proof {
                        assert(tv.take(i + 1).drop_last() =~= tv.take(i as int));
                    }
                    if ts[i].id > max_t {
                        max_t = ts[i].id;
                    }
                    i = i + 1;
                }
                proof {
                    assert(tv.take(tv.len() as int) =~= tv);
                    lemma_max_text_id_in(tv);
                }
                let len = max_t as usize + 1;
                let mut slots: Vec<Option<TextElement<F>>> = empty_slots(len);
                let mut rev = reversed(ts);
                let m = rev.len();
                let mut k: usize = 0;
                while k < m
                    invariant
                        m == tv.len(),
                        rev@.len() == m - k,
                        forall|q: int| 0 <= q < rev@.len() ==> #[trigger] rev@[q] == tv[m - 1 - q],
                        k <= m,
                        len == max_text_id(tv) + 1,
                        len <= u32::MAX,
                        forall|q: int| 0 <= q < tv.len() ==> (#[trigger] tv[q]).id <= max_text_id(tv),
                        slots@ == placed_texts(tv, k as int, len as nat),
                        slots@.len() == len,
                        forall|j: int| 0 <= j < slots@.len() && #[trigger] slots@[j] is Some ==> slots@[j]->0.id == j,
                    decreases m - k,
                {
                    let t = rev.pop().unwrap();
                    assert(t == tv[k as int]);
                    assert(tv[k as int].id <= max_text_id(tv));
                    let id = t.id as usize;
                    let ghost s0 = slots@;
                    slots.set(id, Some(t));
                    proof {
                        assert forall|j: int| 0 <= j < slots@.len() && #[trigger] slots@[j] is Some implies slots@[j]->0.id == j by {
                            if j != id as int {
                                assert(slots@[j] == s0[j]);
                            }
                        }
                    }
                    k = k + 1;
                }
                self.slots.items = slots;
            },
        }
    }
}

impl<G> Gradients<G> {
    /// Replace the gradients by those of a document: none, with next id 0,
    /// when the document has none; otherwise each under its id, a later
    /// one with the same id replacing an earlier one, with the next id
    /// one above the largest.
    pub fn load_gradients(&mut self, list: Option<Vec<(GradientId, G)>>)
        requires
            list matches Some(l) ==> forall|i: int| 0 <= i < l@.len() ==> (#[trigger] l@[i]).0 < u32::MAX,
        ensures
            final(self).wf(),
            list is None ==> final(self).map@ == Map::<GradientId, G>::empty() && final(self).next_id == 0,
            list matches Some(l) ==> final(self).map@ == gradients_of(l@) && final(self).next_id == max_gradient_id(l@) + 1,
    {
        match list {
            None => {
                self.map = HashMap::new();
                self.next_id = 0;
            },
            Some(l) => {
                let ghost lv = l@;
                proof {
                    lemma_gradients_of(lv);
                }
                let mut max_g: GradientId = 0;
                let mut i: usize = 0;
                while i < l.len()
                    invariant
                        l@ == lv,
                        i <= lv.len(),
                        max_g == max_gradient_id(lv.take(i as int)),
                    decreases lv.len() - i,
                {
                    proof {
                        assert(lv.take(i + 1).drop_last() =~= lv.take(i as int));
                    }
                    if l[i].0 > max_g {
                        max_g = l[i].0;
                    }
                    i = i + 1;
                }
                proof {
                    assert(lv.take(lv.len() as int) =~= lv);
                }
                let mut map: HashMap<GradientId, G> = HashMap::new();
                let mut rev = reversed(l);
                let m = rev.len();
                let mut k: usize = 0;
                while k < m
                    invariant
                        m == lv.len(),
                        rev@.len() == m - k,
                        forall|q: int| 0 <= q < rev@.len() ==> #[trigger] rev@[q] == lv[m - 1 - q],
                        k <= m,
                        map@ == gradients_of(lv.take(k as int)),
                    decreases m - k,
                {
                    let (id, g) = rev.pop().unwrap();
                    proof {
                        assert(lv.take(k + 1).drop_last() =~= lv.take(k as int));
                    }
                    map.insert(id, g);
                    k = k + 1;
                }
                proof {
                    assert(lv.take(m as int) =~= lv);
                }
                self.map = map;
                self.next_id = max_g + 1;
            },
        }
    }
}

/// The gradients of a document's list, a later one with the same id
/// replacing an earlier one.
pub open spec fn gradients_of<G>(l: Seq<(GradientId, G)>) -> Map<GradientId, G>
    decreases l.len(),
{
    if l.len() == 0 {
        Map::empty()
    } else {
        gradients_of(l.drop_last()).insert(l.last().0, l.last().1)
    }
}

/// The largest id of a document's gradient list; 0 for none.
pub open spec fn max_gradient_id<G>(l: Seq<(GradientId, G)>) -> nat
    decreases l.len(),
{
    if l.len() == 0 {
        0
    } else if l.last().0 > max_gradient_id(l.drop_last()) {
        l.last().0 as nat
    } else {
        max_gradient_id(l.drop_last())
    }
}

proof fn lemma_gradients_of<G>(l: Seq<(GradientId, G)>)
    ensures
        forall|k: GradientId| #[trigger] gradients_of(l).contains_key(k) ==> k <= max_gradient_id(l),
        forall|q: int| 0 <= q < l.len() ==> (#[trigger] l[q]).0 <= max_gradient_id(l),
        max_gradient_id(l) == 0 || exists|q: int| 0 <= q < l.len() && l[q].0 == max_gradient_id(l),
    decreases l.len(),
{
    if l.len() > 0 {
        lemma_gradients_of(l.drop_last());
        assert forall|q: int| 0 <= q < l.len() implies (#[trigger] l[q]).0 <= max_gradient_id(l) by {
            if q < l.len() - 1 {
                assert(l.drop_last()[q] == l[q]);
            }
        }
        if max_gradient_id(l) != 0 && max_gradient_id(l) != l.last().0 {
            let q = choose|q: int| 0 <= q < l.drop_last().len() && l.drop_last()[q].0 == max_gradient_id(l.drop_last());
            assert(l[q] == l.drop_last()[q]);
        }
        assert forall|k: GradientId| #[trigger] gradients_of(l).contains_key(k) implies k <= max_gradient_id(l) by {
            if k != l.last().0 {
                assert(gradients_of(l.drop_last()).contains_key(k));
            }
        }
    }
}

} // verus!

verus! {

/// The records of the live edges among the first `k` slots, in id order.
pub open spec fn edge_records<E>(edges: Seq<Option<Edge<E>>>, k: int) -> Seq<EdgeRecord<E>>
    decreases k,
{
    if k <= 0 {
        seq![]
    } else if edges[k - 1] is Some {
        let e = edges[k - 1]->0;
        edge_records(edges, k - 1).push(EdgeRecord { id: (k - 1) as u32, a: e.a, b: e.b, stroke: e.stroke, geometry: e.geometry })
    } else {
        edge_records(edges, k - 1)
    }
}

/// Slot sequences `a` and `b` hold the same items at the same ids; they
/// may differ in how many empty slots follow.
pub open spec fn same_items<T>(a: Seq<Option<T>>, b: Seq<Option<T>>) -> bool {
    &&& forall|i: int| 0 <= i < a.len() && #[trigger] a[i] is Some ==> i < b.len() && b[i] == a[i]
    &&& forall|i: int| 0 <= i < b.len() && #[trigger] b[i] is Some ==> i < a.len() && a[i] == b[i]
}

proof fn lemma_placed_nodes_prefix<N>(s: Seq<NodeRecord<N>>, x: NodeRecord<N>, j: int, len: nat)
    requires
        0 <= j <= s.len(),
    ensures
        placed_nodes(s.push(x), j, len) == placed_nodes(s, j, len),
    decreases j,
{
    if j > 0 {
        lemma_placed_nodes_prefix(s, x, j - 1, len);
        assert(s.push(x)[j - 1] == s[j - 1]);
    }
}

/// Placing the node records of slots `nodes` (below `k`) gives back the
/// nodes at their ids and empty slots elsewhere.
proof fn lemma_nodes_round_trip<N>(nodes: Seq<Option<N>>, k: int, len: nat)
    requires
        0 <= k <= nodes.len(),
        nodes.len() <= u32::MAX,
        forall|i: int| 0 <= i < k && #[trigger] nodes[i] is Some ==> i < len,
    ensures
        ({
            let r = node_records(nodes, k);
            let p = placed_nodes(r, r.len() as int, len);
            &&& p.len() == len
            &&& forall|i: int| 0 <= i < len ==> #[trigger] p[i] == (if i < k { nodes[i] } else { None })
            &&& forall|q: int| 0 <= q < r.len() ==> (#[trigger] r[q]).id < k
        }),
    decreases k,
{
    if k > 0 {
        lemma_nodes_round_trip(nodes, k - 1, len);
        let r0 = node_records(nodes, k - 1);
        if nodes[k - 1] is Some {
            let x = NodeRecord { id: (k - 1) as u32, data: nodes[k - 1]->0 };
            lemma_placed_nodes_prefix(r0, x, r0.len() as int, len);
            let r = r0.push(x);
            assert(r[r.len() - 1] == x);
            assert forall|q: int| 0 <= q < r.len() implies (#[trigger] r[q]).id < k by {
                if q < r0.len() {
                    assert(r[q] == r0[q]);
                }
            }
        }
    }
}

proof fn lemma_placed_edges_prefix<N, E>(s: Seq<EdgeRecord<E>>, x: EdgeRecord<E>, ns: Seq<Option<N>>, j: int, len: nat)
    requires
        0 <= j <= s.len(),
    ensures
        placed_edges(s.push(x), ns, j, len) == placed_edges(s, ns, j, len),
    decreases j,
{
    if j > 0 {
        lemma_placed_edges_prefix(s, x, ns, j - 1, len);
        assert(s.push(x)[j - 1] == s[j - 1]);
    }
}

/// Placing the edge records of slots `edges` (below `k`) over nodes `ns`
/// that hold every end gives back the edges at their ids.
proof fn lemma_edges_round_trip<N, E>(edges: Seq<Option<Edge<E>>>, ns: Seq<Option<N>>, k: int, len: nat)
    requires
        0 <= k <= edges.len(),
        edges.len() <= u32::MAX,
        forall|i: int| 0 <= i < k && #[trigger] edges[i] is Some ==> i < len,
        forall|i: int|
            0 <= i < k && #[trigger] edges[i] is Some ==> has_node(ns, edges[i]->0.a) && has_node(ns, edges[i]->0.b),
    ensures
        ({
            let r = edge_records(edges, k);
            let p = placed_edges(r, ns, r.len() as int, len);
            &&& p.len() == len
            &&& forall|i: int| 0 <= i < len ==> #[trigger] p[i] == (if i < k { edges[i] } else { None })
            &&& forall|q: int| 0 <= q < r.len() ==> (#[trigger] r[q]).id < k
        }),
    decreases k,
{
    if k > 0 {
        lemma_edges_round_trip(edges, ns, k - 1, len);
        let r0 = edge_records(edges, k - 1);
        if edges[k - 1] is Some {
            let e = edges[k - 1]->0;
            let x = EdgeRecord { id: (k - 1) as u32, a: e.a, b: e.b, stroke: e.stroke, geometry: e.geometry };
            lemma_placed_edges_prefix(r0, x, ns, r0.len() as int, len);
            let r = r0.push(x);
            assert(r[r.len() - 1] == x);
            assert(edge_of(x) == e);
            assert forall|q: int| 0 <= q < r.len() implies (#[trigger] r[q]).id < k by {
                if q < r0.len() {
                    assert(r[q] == r0[q]);
                }
            }
        }
    }
}

/// Saving a well-formed drawing and loading the document back gives the
/// same nodes and edges at the same ids (only empty slots after the last
/// live item may differ).
pub proof fn lemma_save_load_round_trip<N, E>(g: Graph<N, E>)
    requires
        g.wf(),
    ensures
        ({
            let nr = node_records(g.nodes@, g.nodes@.len() as int);
            let er = edge_records(g.edges@, g.edges@.len() as int);
            let nodes = placed_nodes(nr, nr.len() as int, max_node_id(nr) + 1);
            let edges = placed_edges(er, nodes, er.len() as int, max_edge_id(er) + 1);
            &&& same_items(g.nodes@, nodes)
            &&& same_items(g.edges@, edges)
        }),
{
    let n = g.nodes@.len() as int;
    let m = g.edges@.len() as int;
    let nr = node_records(g.nodes@, n);
    let er = edge_records(g.edges@, m);
    let nlen = max_node_id(nr) + 1;
    let elen = max_edge_id(er) + 1;
    assert forall|i: int| 0 <= i < n && #[trigger] g.nodes@[i] is Some implies i < nlen by {
        lemma_node_record_listed(g.nodes@, n, i);
        lemma_max_node_id_in(nr);
    }
    lemma_nodes_round_trip(g.nodes@, n, nlen);
    let nodes = placed_nodes(nr, nr.len() as int, nlen);
    assert forall|i: int| 0 <= i < m && #[trigger] g.edges@[i] is Some implies i < elen by {
        lemma_edge_record_listed(g.edges@, m, i);
        lemma_max_edge_id_in(er);
    }
    assert forall|i: int|
        0 <= i < m && #[trigger] g.edges@[i] is Some implies has_node(nodes, g.edges@[i]->0.a) && has_node(nodes, g.edges@[i]->0.b) by {
        assert(g.edge_live(i));
        let e = g.edges@[i]->0;
        assert(g.node_live(e.a as int) && g.node_live(e.b as int));
        assert(g.nodes@[e.a as int] is Some);
        assert(g.nodes@[e.b as int] is Some);
    }
    lemma_edges_round_trip(g.edges@, nodes, m, elen);
}

proof fn lemma_node_record_listed<N>(nodes: Seq<Option<N>>, k: int, i: int)
    requires
        0 <= i < k <= nodes.len(),
        nodes.len() <= u32::MAX,
        nodes[i] is Some,
    ensures
        exists|q: int| 0 <= q < node_records(nodes, k).len() && (#[trigger] node_records(nodes, k)[q]).id == i,
    decreases k,
{
    let r = node_records(nodes, k);
    if i == k - 1 {
        assert(r[r.len() - 1].id == i);
    } else {
        lemma_node_record_listed(nodes, k - 1, i);
        let r0 = node_records(nodes, k - 1);
        let q = choose|q: int| 0 <= q < r0.len() && (#[trigger] r0[q]).id == i;
        if nodes[k - 1] is Some {
            assert(r[q] == r0[q]);
        }
    }
}

proof fn lemma_edge_record_listed<E>(edges: Seq<Option<Edge<E>>>, k: int, i: int)
    requires
        0 <= i < k <= edges.len(),
        edges.len() <= u32::MAX,
        edges[i] is Some,
    ensures
        exists|q: int| 0 <= q < edge_records(edges, k).len() && (#[trigger] edge_records(edges, k)[q]).id == i,
    decreases k,
{
    let r = edge_records(edges, k);
    if i == k - 1 {
        assert(r[r.len() - 1].id == i);
    } else {
        lemma_edge_record_listed(edges, k - 1, i);
        let r0 = edge_records(edges, k - 1);
        let q = choose|q: int| 0 <= q < r0.len() && (#[trigger] r0[q]).id == i;
        if edges[k - 1] is Some {
            assert(r[q] == r0[q]);
        }
    }
}

} // verus!

verus! {

/// The live text elements among the first `k` slots, in id order.
pub open spec fn text_list<F>(items: Seq<Option<TextElement<F>>>, k: int) -> Seq<TextElement<F>>
    decreases k,
{
    if k <= 0 {
        seq![]
    } else if items[k - 1] is Some {
        text_list(items, k - 1).push(items[k - 1]->0)
    } else {
        text_list(items, k - 1)
    }
}

proof fn lemma_placed_texts_prefix<F>(s: Seq<TextElement<F>>, x: TextElement<F>, j: int, len: nat)
    requires
        0 <= j <= s.len(),
    ensures
        placed_texts(s.push(x), j, len) == placed_texts(s, j, len),
    decreases j,
{
    if j > 0 {
        lemma_placed_texts_prefix(s, x, j - 1, len);
        assert(s.push(x)[j - 1] == s[j - 1]);
    }
}

proof fn lemma_texts_round_trip_upto<F>(items: Seq<Option<TextElement<F>>>, k: int, len: nat)
    requires
        0 <= k <= items.len(),
        forall|i: int| 0 <= i < items.len() && #[trigger] items[i] is Some ==> items[i]->0.id == i,
        forall|i: int| 0 <= i < k && #[trigger] items[i] is Some ==> i < len,
    ensures
        ({
            let r = text_list(items, k);
            let p = placed_texts(r, r.len() as int, len);
            &&& p.len() == len
            &&& forall|i: int| 0 <= i < len ==> #[trigger] p[i] == (if i < k { items[i] } else { None })
            &&& forall|q: int| 0 <= q < r.len() ==> (#[trigger] r[q]).id < k
        }),
    decreases k,
{
    if k > 0 {
        lemma_texts_round_trip_upto(items, k - 1, len);
        let r0 = text_list(items, k - 1);
        if items[k - 1] is Some {
            let x = items[k - 1]->0;
            lemma_placed_texts_prefix(r0, x, r0.len() as int, len);
            let r = r0.push(x);
            assert(r[r.len() - 1] == x);
            assert forall|q: int| 0 <= q < r.len() implies (#[trigger] r[q]).id < k by {
                if q < r0.len() {
                    assert(r[q] == r0[q]);
                }
            }
        }
    }
}

proof fn lemma_text_listed<F>(items: Seq<Option<TextElement<F>>>, k: int, i: int)
    requires
        0 <= i < k <= items.len(),
        forall|j: int| 0 <= j < items.len() && #[trigger] items[j] is Some ==> items[j]->0.id == j,
        items[i] is Some,
    ensures
        exists|q: int| 0 <= q < text_list(items, k).len() && (#[trigger] text_list(items, k)[q]).id == i,
    decreases k,
{
    let r = text_list(items, k);
    if i == k - 1 {
        assert(r[r.len() - 1].id == i);
    } else {
        lemma_text_listed(items, k - 1, i);
        let r0 = text_list(items, k - 1);
        let q = choose|q: int| 0 <= q < r0.len() && (#[trigger] r0[q]).id == i;
        if items[k - 1] is Some {
            assert(r[q] == r0[q]);
        }
    }
}

/// Listing the live text elements and loading the list back gives the
/// same elements at the same ids.
pub proof fn lemma_texts_round_trip<F>(t: Texts<F>)
    requires
        t.wf(),
    ensures
        ({
            let l = text_list(t.slots.items@, t.slots.items@.len() as int);
            same_items(t.slots.items@, placed_texts(l, l.len() as int, max_text_id(l) + 1))
        }),
{
    let items = t.slots.items@;
    let n = items.len() as int;
    let l = text_list(items, n);
    let len = max_text_id(l) + 1;
    lemma_max_text_id_in(l);
    assert forall|i: int| 0 <= i < n && #[trigger] items[i] is Some implies i < len by {
        lemma_text_listed(items, n, i);
        let q = choose|q: int| 0 <= q < l.len() && (#[trigger] l[q]).id == i;
        assert(l[q].id <= max_text_id(l));
    }
    lemma_texts_round_trip_upto(items, n, len);
}

} // verus!

verus! {

proof fn lemma_all_flagged(ok: Seq<bool>, i: int, n: int)
    requires
        0 <= i,
        n <= ok.len(),
        forall|j: int| 0 <= j < ok.len() ==> ok[j],
    ensures
        first_unflagged(ok, i, n) is None,
    decreases n - i,
{
    if i < n {
        lemma_all_flagged(ok, i + 1, n);
    }
}

/// The polyline points of the edges from position `k` on.
pub open spec fn points_from(points: Seq<usize>, k: int) -> int
    decreases points.len() - k,
{
    if k < 0 || k >= points.len() {
        0
    } else {
        points[k] + points_from(points, k + 1)
    }
}

proof fn lemma_edges_accepted<E>(es: Seq<EdgeRecord<E>>, ok: Seq<bool>, points: Seq<usize>, n: int, k: int, total: int)
    requires
        0 <= k <= es.len(),
        0 <= n,
        ok.len() == n + es.len(),
        points.len() == es.len(),
        forall|j: int| 0 <= j < ok.len() ==> ok[j],
        forall|j: int| 0 <= j < points.len() ==> points[j] <= MAX_POINTS_PER_EDGE,
        total + points_from(points, k) <= MAX_POINTS_TOTAL,
        forall|j: int| 0 <= j < es.len() ==> (#[trigger] es[j]).a != es[j].b,
    ensures
        edge_problem(es, ok, points, n, k, total) is None,
    decreases es.len() - k,
{
    if k < es.len() {
        assert(points_from(points, k + 1) >= 0) by {
            lemma_points_from_nonneg(points, k + 1);
        }
        lemma_edges_accepted(es, ok, points, n, k + 1, total + points[k]);
    }
}

proof fn lemma_points_from_nonneg(points: Seq<usize>, k: int)
    ensures
        points_from(points, k) >= 0,
    decreases points.len() - k,
{
    if 0 <= k < points.len() {
        lemma_points_from_nonneg(points, k + 1);
    }
}

proof fn lemma_saved_edges_no_loops<N, E>(g: Graph<N, E>, k: int)
    requires
        g.wf(),
        0 <= k <= g.edges@.len(),
    ensures
        forall|j: int| 0 <= j < edge_records(g.edges@, k).len() ==> (#[trigger] edge_records(g.edges@, k)[j]).a
            != edge_records(g.edges@, k)[j].b,
    decreases k,
{
    if k > 0 {
        lemma_saved_edges_no_loops(g, k - 1);
        let r0 = edge_records(g.edges@, k - 1);
        let r = edge_records(g.edges@, k);
        if g.edges@[k - 1] is Some {
            assert(g.edge_live(k - 1));
            assert forall|j: int| 0 <= j < r.len() implies (#[trigger] r[j]).a != r[j].b by {
                if j < r0.len() {
                    assert(r[j] == r0[j]);
                }
            }
        }
    }
}

/// A saved document is accepted when it is within the caps on nodes,
/// edges and polyline points, and every position and width is within
/// bounds (every flag set).
pub proof fn lemma_saved_document_accepted<N, E>(g: Graph<N, E>, ok: Seq<bool>, points: Seq<usize>)
    requires
        g.wf(),
        node_records(g.nodes@, g.nodes@.len() as int).len() <= MAX_DOC_NODES,
        edge_records(g.edges@, g.edges@.len() as int).len() <= MAX_DOC_EDGES,
        ok.len() == node_records(g.nodes@, g.nodes@.len() as int).len() + edge_records(
            g.edges@,
            g.edges@.len() as int,
        ).len(),
        points.len() == edge_records(g.edges@, g.edges@.len() as int).len(),
        forall|j: int| 0 <= j < ok.len() ==> ok[j],
        forall|j: int| 0 <= j < points.len() ==> points[j] <= MAX_POINTS_PER_EDGE,
        points_from(points, 0) <= MAX_POINTS_TOTAL,
    ensures
        load_problem(node_records(g.nodes@, g.nodes@.len() as int), edge_records(g.edges@, g.edges@.len() as int), ok, points)
            is None,
{
    let nr = node_records(g.nodes@, g.nodes@.len() as int);
    let er = edge_records(g.edges@, g.edges@.len() as int);
    lemma_all_flagged(ok, 0, nr.len() as int);
    lemma_saved_edges_no_loops(g, g.edges@.len() as int);
    lemma_edges_accepted(er, ok, points, nr.len() as int, 0, 0);
}

} // verus!
