//! The vector network: nodes, edges between them, shapes made of edges,
//! region fills and the layer forest.
//!
//! Positions and edge geometry are payloads of types `N` and `E` that the
//! network stores and hands back; everything that decides which nodes,
//! edges and shapes exist, and how they are connected, is here.

use vstd::prelude::*;
use std::collections::HashMap;
use crate::layers::{LayerId, LayerSystem, edge_assigned, edge_unassigned, without};
use crate::model::{Color, FillRule, FillState, GradientId, Shape};
use crate::store::Gradients;

verus! {

broadcast use vstd::std_specs::hash::group_hash_axioms;

/// An edge between nodes `a` and `b`, with its stroke color and geometry.
pub struct Edge<E> {
    pub a: u32,
    pub b: u32,
    pub stroke: Option<Color>,
    pub geometry: E,
}

/// A vector network. Node, edge and shape ids are indices into the slot
/// vectors; a removed item leaves an empty slot, so ids are never reused.
pub struct Graph<N, E> {
    pub nodes: Vec<Option<N>>,
    pub edges: Vec<Option<Edge<E>>>,
    pub shapes: Vec<Option<Shape>>,
    /// Region key -> fill.
    pub fills: HashMap<u32, FillState>,
    /// Layer/group hierarchy.
    pub layer_system: LayerSystem,
    pub geom_ver: u64,
}

/// Number of occupied slots.
pub open spec fn count_some<T>(s: Seq<Option<T>>) -> nat
    decreases s.len(),
{
    if s.len() == 0 {
        0
    } else {
        count_some(s.drop_last()) + if s.last() is Some {
            1nat
        } else {
            0nat
        }
    }
}

proof fn lemma_count_some_bound<T>(s: Seq<Option<T>>)
    ensures
        count_some(s) <= s.len(),
    decreases s.len(),
{
    if s.len() > 0 {
        lemma_count_some_bound(s.drop_last());
    }
}

/// The indices below `n` of the occupied slots of `s`, in increasing order.
pub open spec fn live_ids<T>(s: Seq<Option<T>>, n: int) -> Seq<u32>
    decreases n,
{
    if n <= 0 {
        seq![]
    } else if s[n - 1] is Some {
        live_ids(s, n - 1).push((n - 1) as u32)
    } else {
        live_ids(s, n - 1)
    }
}

/// The ids listed for a slot vector are as many as its occupied slots: the
/// id lists and the counts of nodes, edges, shapes and texts agree.
pub proof fn lemma_live_ids_count<T>(s: Seq<Option<T>>, n: int)
    requires
        0 <= n <= s.len(),
    ensures
        live_ids(s, n).len() == count_some(s.take(n)),
        n == s.len() ==> live_ids(s, n).len() == count_some(s),
    decreases n,
{
    if n > 0 {
        lemma_live_ids_count(s, n - 1);
        assert(s.take(n).drop_last() =~= s.take(n - 1));
    }
    if n == s.len() {
        assert(s.take(n) =~= s);
    }
}

/// An index is listed by `live_ids` exactly when its slot is occupied.
pub proof fn lemma_live_ids_contains<T>(s: Seq<Option<T>>, n: int, id: u32)
    requires
        0 <= n <= s.len(),
        s.len() <= u32::MAX + 1,
    ensures
        live_ids(s, n).contains(id) <==> id < n && s[id as int] is Some,
    decreases n,
{
    if n > 0 {
        lemma_live_ids_contains(s, n - 1, id);
        let prev = live_ids(s, n - 1);
        if s[n - 1] is Some {
            let cur = prev.push((n - 1) as u32);
            if cur.contains(id) && id != (n - 1) as u32 {
                let k = choose|k: int| 0 <= k < cur.len() && cur[k] == id;
                assert(prev[k] == id);
            }
            if prev.contains(id) {
                let k = choose|k: int| 0 <= k < prev.len() && prev[k] == id;
                assert(cur[k] == id);
            }
            if id == (n - 1) as u32 {
                assert(cur[prev.len() as int] == id);
            }
        }
    }
}

/// The indices below `n` of the existing edges of `edges` that touch node
/// `node`, in increasing order.
pub open spec fn incident_ids<E>(edges: Seq<Option<Edge<E>>>, node: u32, n: int) -> Seq<u32>
    decreases n,
{
    if n <= 0 {
        seq![]
    } else if edges[n - 1] matches Some(e) && touches(e, node) {
        incident_ids(edges, node, n - 1).push((n - 1) as u32)
    } else {
        incident_ids(edges, node, n - 1)
    }
}

/// An edge is listed by `incident_ids` exactly when it exists and touches
/// the node.
pub proof fn lemma_incident_ids_contains<E>(edges: Seq<Option<Edge<E>>>, node: u32, n: int, id: u32)
    requires
        0 <= n <= edges.len(),
        edges.len() <= u32::MAX + 1,
    ensures
        incident_ids(edges, node, n).contains(id) <==> (id < n && edges[id as int] is Some && touches(edges[id as int]->0, node)),
    decreases n,
{
    if n > 0 {
        lemma_incident_ids_contains(edges, node, n - 1, id);
        let prev = incident_ids(edges, node, n - 1);
        if edges[n - 1] matches Some(e) && touches(e, node) {
            let cur = prev.push((n - 1) as u32);
            if cur.contains(id) && id != (n - 1) as u32 {
                let k = choose|k: int| 0 <= k < cur.len() && cur[k] == id;
                assert(prev[k] == id);
            }
            if prev.contains(id) {
                let k = choose|k: int| 0 <= k < prev.len() && prev[k] == id;
                assert(cur[k] == id);
            }
            if id == (n - 1) as u32 {
                assert(cur[prev.len() as int] == id);
            }
        }
    }
}

/// Edge `e` touches node `n`.
pub open spec fn touches<E>(e: Edge<E>, n: u32) -> bool {
    e.a == n || e.b == n
}

impl<N, E> Graph<N, E> {
    /// Node `id` exists.
    pub open spec fn node_live(&self, id: int) -> bool {
        0 <= id < self.nodes@.len() && self.nodes@[id] is Some
    }

    /// Edge `id` exists.
    pub open spec fn edge_live(&self, id: int) -> bool {
        0 <= id < self.edges@.len() && self.edges@[id] is Some
    }

    /// Shape `id` exists.
    pub open spec fn shape_live(&self, id: int) -> bool {
        0 <= id < self.shapes@.len() && self.shapes@[id] is Some
    }

    /// The well-formedness of the network: every edge joins two distinct
    /// existing nodes, every shape knows its id, ids fit in `u32`, and the
    /// layer forest is well formed. A shape's edge ids need not name edge
    /// slots: loading a document keeps the shapes while the edge slots
    /// follow the document.
    pub open spec fn wf(&self) -> bool {
        &&& self.layer_system.wf()
        &&& self.nodes@.len() <= u32::MAX
        &&& self.edges@.len() <= u32::MAX
        &&& self.shapes@.len() <= u32::MAX
        &&& forall|i: int| #[trigger]
            self.edge_live(i) ==> {
                let e = self.edges@[i]->0;
                &&& e.a != e.b
                &&& self.node_live(e.a as int)
                &&& self.node_live(e.b as int)
            }
        &&& forall|i: int| #[trigger] self.shape_live(i) ==> self.shapes@[i]->0.id == i
    }

    /// The state other than nodes, edges and the version is unchanged.
    pub open spec fn same_extras(&self, other: &Self) -> bool {
        &&& self.shapes@ == other.shapes@
        &&& self.fills@ == other.fills@
        &&& self.layer_system.groups@ == other.layer_system.groups@
        &&& self.layer_system.layers@ == other.layer_system.layers@
        &&& self.layer_system.edge_to_group@ == other.layer_system.edge_to_group@
        &&& self.layer_system.next_id == other.layer_system.next_id
    }
}

impl<N, E> Graph<N, E> {
    /// An empty network with one layer and geometry version 1.
    pub fn new() -> (g: Self)
        ensures
            g.wf(),
            g.nodes@.len() == 0,
            g.edges@.len() == 0,
            g.shapes@.len() == 0,
            g.fills@.is_empty(),
            g.layer_system.layers@.len() == 1,
            g.geom_ver == 1,
    {
        Graph {
            nodes: Vec::new(),
            edges: Vec::new(),
            shapes: Vec::new(),
            fills: HashMap::new(),
            layer_system: LayerSystem::new(),
            geom_ver: 1,
        }
    }

    /// The geometry version; it changes whenever the geometry changes.
    pub fn geom_version(&self) -> (v: u64)
        ensures
            v == self.geom_ver,
    {
        self.geom_ver
    }

    /// Advance the geometry version (wrapping).
    pub fn bump(&mut self)
        ensures
            final(self).geom_ver == old(self).geom_ver.wrapping_add(1),
            final(self).nodes == old(self).nodes,
            final(self).edges == old(self).edges,
            final(self).shapes == old(self).shapes,
            final(self).fills == old(self).fills,
            final(self).layer_system == old(self).layer_system,
    {
        self.geom_ver = self.geom_ver.wrapping_add(1);
    }

    // -----------------------------------------------------------------------
    // Nodes
    // -----------------------------------------------------------------------
    /// Add a node carrying `data`; its id is the number of node slots.
    pub fn add_node(&mut self, data: N) -> (id: u32)
        requires
            old(self).wf(),
            old(self).nodes@.len() < u32::MAX,
        ensures
            final(self).wf(),
            id == old(self).nodes@.len(),
            final(self).nodes@ == old(self).nodes@.push(Some(data)),
            final(self).edges@ == old(self).edges@,
            final(self).same_extras(old(self)),
            final(self).geom_ver == old(self).geom_ver.wrapping_add(1),
    {
        let id = self.nodes.len() as u32;
        self.nodes.push(Some(data));
        self.bump();
        proof {
            assert forall|i: int| #[trigger] self.edge_live(i) implies {
                let e = self.edges@[i]->0;
                &&& e.a != e.b
                &&& self.node_live(e.a as int)
                &&& self.node_live(e.b as int)
            } by {
                assert(old(self).edge_live(i));
                let e = self.edges@[i]->0;
                assert(old(self).node_live(e.a as int));
                assert(old(self).node_live(e.b as int));
            }
            assert forall|i: int| #[trigger] self.shape_live(i) implies self.shapes@[i]->0.id == i by {
                assert(old(self).shape_live(i));
            }
        }
        id
    }

    /// The data of node `id`, if it exists.
    pub fn get_node(&self, id: u32) -> (r: Option<&N>)
        ensures
            r == (if self.node_live(id as int) {
                Some(&self.nodes@[id as int]->0)
            } else {
                None
            }),
    {
        if (id as usize) < self.nodes.len() {
            match &self.nodes[id as usize] {
                Some(n) => Some(n),
                None => None,
            }
        } else {
            None
        }
    }

    /// Replace the data of node `id`; false when it does not exist.
    pub fn set_node(&mut self, id: u32, data: N) -> (found: bool)
        requires
            old(self).wf(),
        ensures
            final(self).wf(),
            found == old(self).node_live(id as int),
            found ==> final(self).nodes@ == old(self).nodes@.update(id as int, Some(data)),
            !found ==> final(self).nodes@ == old(self).nodes@,
            final(self).edges@ == old(self).edges@,
            final(self).same_extras(old(self)),
            final(self).geom_ver == old(self).geom_ver,
    {
        if (id as usize) < self.nodes.len() && self.nodes[id as usize].is_some() {
            self.nodes[id as usize] = Some(data);
            proof {
                assert forall|i: int| #[trigger] self.edge_live(i) implies {
                    let e = self.edges@[i]->0;
                    &&& e.a != e.b
                    &&& self.node_live(e.a as int)
                    &&& self.node_live(e.b as int)
                } by {
                    assert(old(self).edge_live(i));
                }
                assert forall|i: int| #[trigger] self.shape_live(i) implies self.shapes@[i]->0.id == i by {
                    assert(old(self).shape_live(i));
                }
            }
            true
        } else {
            false
        }
    }

    /// Remove node `id` and every edge that touches it; false when the node
    /// does not exist.
    pub fn remove_node(&mut self, id: u32) -> (removed: bool)
        requires
            old(self).wf(),
        ensures
            final(self).wf(),
            removed == old(self).node_live(id as int),
            !removed ==> final(self).nodes@ == old(self).nodes@ && final(self).edges@
                == old(self).edges@ && final(self).geom_ver == old(self).geom_ver,
            removed ==> final(self).nodes@ == old(self).nodes@.update(id as int, None),
            removed ==> final(self).edges@.len() == old(self).edges@.len(),
            removed ==> forall|i: int|
                0 <= i < old(self).edges@.len() ==> #[trigger] final(self).edges@[i] == (match old(
                    self,
                ).edges@[i] {
                    Some(e) => if touches(e, id) {
                        None
                    } else {
                        Some(e)
                    },
                    None => None,
                }),
            removed ==> final(self).geom_ver == old(self).geom_ver.wrapping_add(1),
            final(self).same_extras(old(self)),
    {
        if !((id as usize) < self.nodes.len() && self.nodes[id as usize].is_some()) {
            return false;
        }
        let n = self.edges.len();
        let mut i: usize = 0;
        while i < n
            invariant
                n == self.edges@.len(),
                n == old(self).edges@.len(),
                i <= n,
                self.nodes@ == old(self).nodes@,
                self.same_extras(old(self)),
                self.layer_system == old(self).layer_system,
                self.geom_ver == old(self).geom_ver,
                forall|j: int|
                    0 <= j < n ==> #[trigger] self.edges@[j] == (if j < i {
                        match old(self).edges@[j] {
                            Some(e) => if touches(e, id) {
                                None
                            } else {
                                Some(e)
                            },
                            None => None,
                        }
                    } else {
                        old(self).edges@[j]
                    }),
            decreases n - i,
        {
            let incident = match &self.edges[i] {
                Some(e) => e.a == id || e.b == id,
                None => false,
            };
            if incident {
                self.edges[i] = None;
            }
            i = i + 1;
        }
        self.nodes[id as usize] = None;
        self.bump();
        proof {
            assert forall|j: int| #[trigger] self.edge_live(j) implies {
                let e = self.edges@[j]->0;
                &&& e.a != e.b
                &&& self.node_live(e.a as int)
                &&& self.node_live(e.b as int)
            } by {
                assert(old(self).edge_live(j));
                let e = old(self).edges@[j]->0;
                assert(!touches(e, id));
            }
            assert forall|j: int| #[trigger] self.shape_live(j) implies self.shapes@[j]->0.id == j by {
                assert(old(self).shape_live(j));
            }
        }
        true
    }

    /// The IDs of the existing nodes, in increasing order.
    pub fn node_ids(&self) -> (ids: Vec<u32>)
        requires
            self.wf(),
        ensures
            ids@ == live_ids(self.nodes@, self.nodes@.len() as int),
    {
        let mut ids: Vec<u32> = Vec::new();
        let mut i: usize = 0;
        while i < self.nodes.len()
            invariant
                i <= self.nodes@.len(),
                self.nodes@.len() <= u32::MAX,
                ids@ == live_ids(self.nodes@, i as int),
            decreases self.nodes@.len() - i,
        {
            if self.nodes[i].is_some() {
                ids.push(i as u32);
            }
            i = i + 1;
        }
        ids
    }

    /// The IDs of the existing edges that touch node `id`, in increasing
    /// order: the edges that removing the node removes with it.
    pub fn incident_edges(&self, id: u32) -> (ids: Vec<u32>)
        requires
            self.wf(),
        ensures
            ids@ == incident_ids(self.edges@, id, self.edges@.len() as int),
    {
        let mut ids: Vec<u32> = Vec::new();
        let mut i: usize = 0;
        while i < self.edges.len()
            invariant
                i <= self.edges@.len(),
                self.edges@.len() <= u32::MAX,
                ids@ == incident_ids(self.edges@, id, i as int),
            decreases self.edges@.len() - i,
        {
            match &self.edges[i] {
                Some(e) => {
                    if e.a == id || e.b == id {
                        ids.push(i as u32);
                    }
                },
                None => {},
            }
            i = i + 1;
        }
        ids
    }

    /// Number of existing nodes.
    pub fn node_count(&self) -> (c: u32)
        requires
            self.wf(),
        ensures
            c == count_some(self.nodes@),
    {
        let mut c: u32 = 0;
        let mut i: usize = 0;
        while i < self.nodes.len()
            invariant
                i <= self.nodes@.len(),
                self.nodes@.len() <= u32::MAX,
                c == count_some(self.nodes@.take(i as int)),
            decreases self.nodes@.len() - i,
        {
            proof {
                assert(self.nodes@.take(i + 1).drop_last() =~= self.nodes@.take(i as int));
                lemma_count_some_bound(self.nodes@.take(i as int));
            }
            if self.nodes[i].is_some() {
                c = c + 1;
            }
            i = i + 1;
        }
        assert(self.nodes@.take(i as int) =~= self.nodes@);
        c
    }

    // -----------------------------------------------------------------------
    // Edges
    // -----------------------------------------------------------------------
    /// The shapes and everything but the nodes, edges, layer forest and
    /// version are kept, and the network stays well formed after an edge was
    /// appended or emptied.
    pub(crate) proof fn lemma_wf_after_edge_change(&self, old_g: &Self)
        requires
            old_g.wf(),
            self.layer_system.wf(),
            self.nodes@ == old_g.nodes@,
            self.shapes@ == old_g.shapes@,
            self.edges@.len() >= old_g.edges@.len(),
            self.edges@.len() <= u32::MAX,
            forall|i: int| #[trigger]
                self.edge_live(i) ==> {
                    let e = self.edges@[i]->0;
                    &&& e.a != e.b
                    &&& self.node_live(e.a as int)
                    &&& self.node_live(e.b as int)
                },
        ensures
            self.wf(),
    {
        assert forall|i: int| #[trigger] self.shape_live(i) implies self.shapes@[i]->0.id == i by {
            assert(old_g.shape_live(i));
        }
    }

    /// Well-formedness depends only on the slots and the layer forest.
    pub(crate) proof fn lemma_wf_frame(&self, other: &Self)
        requires
            other.wf(),
            self.layer_system.wf(),
            self.nodes@ == other.nodes@,
            self.edges@ == other.edges@,
            self.shapes@ == other.shapes@,
        ensures
            self.wf(),
    {
        assert forall|i: int| #[trigger] self.edge_live(i) implies {
            let e = self.edges@[i]->0;
            &&& e.a != e.b
            &&& self.node_live(e.a as int)
            &&& self.node_live(e.b as int)
        } by {
            assert(other.edge_live(i));
        }
        assert forall|i: int| #[trigger] self.shape_live(i) implies self.shapes@[i]->0.id == i by {
            assert(other.shape_live(i));
        }
    }

    fn push_edge(&mut self, a: u32, b: u32, geometry: E) -> (id: u32)
        requires
            old(self).wf(),
            old(self).edges@.len() < u32::MAX,
            a != b,
            old(self).node_live(a as int),
            old(self).node_live(b as int),
        ensures
            final(self).wf(),
            id == old(self).edges@.len(),
            final(self).edges@ == old(self).edges@.push(Some(Edge { a, b, stroke: None, geometry })),
            final(self).nodes@ == old(self).nodes@,
            final(self).same_extras(old(self)),
            final(self).layer_system == old(self).layer_system,
            final(self).geom_ver == old(self).geom_ver,
    {
        let id = self.edges.len() as u32;
        self.edges.push(Some(Edge { a, b, stroke: None, geometry }));
        proof {
            assert forall|i: int| #[trigger] self.edge_live(i) implies {
                let e = self.edges@[i]->0;
                &&& e.a != e.b
                &&& self.node_live(e.a as int)
                &&& self.node_live(e.b as int)
            } by {
                if i < old(self).edges@.len() {
                    assert(old(self).edge_live(i));
                }
            }
            self.lemma_wf_after_edge_change(old(self));
        }
        id
    }

    /// Add an edge from node `a` to node `b` carrying `geometry`, without a
    /// stroke, and put it into the default layer's root group. None when the
    /// endpoints are equal or one of them does not exist; otherwise the id
    /// is the number of edge slots.
    pub fn add_edge(&mut self, a: u32, b: u32, geometry: E) -> (r: Option<u32>)
        requires
            old(self).wf(),
            old(self).edges@.len() < u32::MAX,
        ensures
            final(self).wf(),
            r is None <==> (a == b || !old(self).node_live(a as int) || !old(self).node_live(b as int)),
            r is None ==> final(self).edges@ == old(self).edges@ && final(self).layer_system == old(self).layer_system
                && final(self).geom_ver == old(self).geom_ver,
            r matches Some(id) ==> {
                &&& id == old(self).edges@.len()
                &&& final(self).edges@ == old(self).edges@.push(Some(Edge { a, b, stroke: None, geometry }))
                &&& (if old(self).layer_system.layers@.len() > 0 {
                    edge_assigned(&old(self).layer_system, &final(self).layer_system, id, old(self).layer_system.layers@[0].root_group)
                } else {
                    final(self).layer_system == old(self).layer_system
                })
                &&& old(self).layer_system.layers@.len() > 0 ==> {
                    let root = old(self).layer_system.layers@[0].root_group;
                    &&& final(self).layer_system.groups@.contains_key(root)
                    &&& final(self).layer_system.edge_to_group@.contains_key(id)
                    &&& final(self).layer_system.edge_to_group@[id] == root
                    &&& final(self).layer_system.groups@[root].edges@.contains(id)
                }
                &&& final(self).geom_ver == old(self).geom_ver.wrapping_add(1)
            },
            final(self).nodes@ == old(self).nodes@,
            final(self).shapes@ == old(self).shapes@,
            final(self).fills@ == old(self).fills@,
    {
        if a == b {
            return None;
        }
        if self.get_node(a).is_none() {
            return None;
        }
        if self.get_node(b).is_none() {
            return None;
        }
        let id = self.push_edge(a, b, geometry);
        let ghost mid = *self;
        proof {
            crate::layers::lemma_root_groups_exist(&self.layer_system);
        }
        match self.layer_system.default_group() {
            Some(g) => {
                self.layer_system.add_edge_to_group(id, g);
                proof {
                    let n = without(mid.layer_system.groups@[g].edges@, id);
                    assert(self.layer_system.groups@[g].edges@ == n.push(id));
                    assert(self.layer_system.groups@[g].edges@[n.len() as int] == id);
                }
            },
            None => {},
        }
        self.bump();
        proof {
            self.lemma_wf_frame(&mid);
        }
        Some(id)
    }

    /// Add an edge like `add_edge`, but leave it without a group (used for
    /// polyline edges).
    pub fn add_polyline_edge(&mut self, a: u32, b: u32, geometry: E) -> (r: Option<u32>)
        requires
            old(self).wf(),
            old(self).edges@.len() < u32::MAX,
        ensures
            final(self).wf(),
            r is None <==> (a == b || !old(self).node_live(a as int) || !old(self).node_live(b as int)),
            r is None ==> final(self).edges@ == old(self).edges@ && final(self).geom_ver == old(self).geom_ver,
            r matches Some(id) ==> {
                &&& id == old(self).edges@.len()
                &&& final(self).edges@ == old(self).edges@.push(Some(Edge { a, b, stroke: None, geometry }))
                &&& final(self).geom_ver == old(self).geom_ver.wrapping_add(1)
            },
            final(self).nodes@ == old(self).nodes@,
            final(self).same_extras(old(self)),
            final(self).layer_system == old(self).layer_system,
    {
        if a == b {
            return None;
        }
        if self.get_node(a).is_none() {
            return None;
        }
        if self.get_node(b).is_none() {
            return None;
        }
        let id = self.push_edge(a, b, geometry);
        let ghost mid = *self;
        self.bump();
        proof {
            self.lemma_wf_frame(&mid);
        }
        Some(id)
    }

    /// Remove edge `id` and take it out of its group; false when it does not exist.
    pub fn remove_edge(&mut self, id: u32) -> (removed: bool)
        requires
            old(self).wf(),
        ensures
            final(self).wf(),
            removed == old(self).edge_live(id as int),
            !removed ==> final(self).edges@ == old(self).edges@ && final(self).layer_system == old(self).layer_system
                && final(self).geom_ver == old(self).geom_ver,
            removed ==> final(self).edges@ == old(self).edges@.update(id as int, None),
            removed ==> edge_unassigned(&old(self).layer_system, &final(self).layer_system, id),
            removed && !old(self).layer_system.edge_to_group@.contains_key(id)
                ==> final(self).layer_system.groups == old(self).layer_system.groups,
            removed ==> final(self).geom_ver == old(self).geom_ver.wrapping_add(1),
            final(self).nodes@ == old(self).nodes@,
            final(self).shapes@ == old(self).shapes@,
            final(self).fills@ == old(self).fills@,
    {
        if (id as usize) < self.edges.len() && self.edges[id as usize].is_some() {
            self.edges[id as usize] = None;
            self.layer_system.remove_edge(id);
            self.bump();
            proof {
                assert forall|i: int| #[trigger] self.edge_live(i) implies {
                    let e = self.edges@[i]->0;
                    &&& e.a != e.b
                    &&& self.node_live(e.a as int)
                    &&& self.node_live(e.b as int)
                } by {
                    assert(old(self).edge_live(i));
                }
                self.lemma_wf_after_edge_change(old(self));
            }
            true
        } else {
            false
        }
    }

    /// Number of existing edges.
    pub fn edge_count(&self) -> (c: u32)
        requires
            self.wf(),
        ensures
            c == count_some(self.edges@),
    {
        let mut c: u32 = 0;
        let mut i: usize = 0;
        while i < self.edges.len()
            invariant
                i <= self.edges@.len(),
                self.edges@.len() <= u32::MAX,
                c == count_some(self.edges@.take(i as int)),
            decreases self.edges@.len() - i,
        {
            proof {
                assert(self.edges@.take(i + 1).drop_last() =~= self.edges@.take(i as int));
                lemma_count_some_bound(self.edges@.take(i as int));
            }
            if self.edges[i].is_some() {
                c = c + 1;
            }
            i = i + 1;
        }
        assert(self.edges@.take(i as int) =~= self.edges@);
        c
    }

    /// The IDs of the existing edges, in increasing order.
    pub fn edge_ids(&self) -> (ids: Vec<u32>)
        requires
            self.wf(),
        ensures
            ids@ == live_ids(self.edges@, self.edges@.len() as int),
    {
        let mut ids: Vec<u32> = Vec::new();
        let mut i: usize = 0;
        while i < self.edges.len()
            invariant
                i <= self.edges@.len(),
                self.edges@.len() <= u32::MAX,
                ids@ == live_ids(self.edges@, i as int),
            decreases self.edges@.len() - i,
        {
            if self.edges[i].is_some() {
                ids.push(i as u32);
            }
            i = i + 1;
        }
        ids
    }

    /// Empty the network: no nodes, edges, shapes or region fills remain.
    /// The layer forest is kept as it is.
    pub fn clear(&mut self)
        requires
            old(self).wf(),
        ensures
            final(self).wf(),
            final(self).nodes@.len() == 0,
            final(self).edges@.len() == 0,
            final(self).shapes@.len() == 0,
            final(self).fills@.is_empty(),
            final(self).layer_system == old(self).layer_system,
            final(self).geom_ver == old(self).geom_ver.wrapping_add(1),
    {
        self.nodes.clear();
        self.edges.clear();
        self.shapes.clear();
        self.fills.clear();
        self.bump();
        proof {
            assert(self.fills@ =~= Map::<u32, FillState>::empty());
        }
    }

    /// Edge `id`, if it exists.
    pub fn get_edge(&self, id: u32) -> (r: Option<&Edge<E>>)
        ensures
            r == (if self.edge_live(id as int) {
                Some(&self.edges@[id as int]->0)
            } else {
                None
            }),
    {
        if (id as usize) < self.edges.len() {
            match &self.edges[id as usize] {
                Some(e) => Some(e),
                None => None,
            }
        } else {
            None
        }
    }

    /// Replace the geometry of edge `id`; false when it does not exist.
    pub fn set_edge_geometry(&mut self, id: u32, geometry: E) -> (found: bool)
        requires
            old(self).wf(),
        ensures
            final(self).wf(),
            found == old(self).edge_live(id as int),
            found ==> final(self).edges@ == old(self).edges@.update(
                id as int,
                Some(Edge { geometry, ..old(self).edges@[id as int]->0 }),
            ),
            !found ==> final(self).edges@ == old(self).edges@,
            final(self).nodes@ == old(self).nodes@,
            final(self).same_extras(old(self)),
            final(self).layer_system == old(self).layer_system,
            final(self).geom_ver == old(self).geom_ver,
    {
        if (id as usize) < self.edges.len() && self.edges[id as usize].is_some() {
            let old_edge = self.edges[id as usize].take().unwrap();
            self.edges[id as usize] = Some(Edge { a: old_edge.a, b: old_edge.b, stroke: old_edge.stroke, geometry });
            proof {
                assert(self.edges@ =~= old(self).edges@.update(
                    id as int,
                    Some(Edge { geometry, ..old(self).edges@[id as int]->0 }),
                ));
                assert forall|i: int| #[trigger] self.edge_live(i) implies {
                    let e = self.edges@[i]->0;
                    &&& e.a != e.b
                    &&& self.node_live(e.a as int)
                    &&& self.node_live(e.b as int)
                } by {
                    assert(old(self).edge_live(i));
                }
                self.lemma_wf_after_edge_change(old(self));
            }
            true
        } else {
            false
        }
    }

    /// Set the stroke color of edge `id`; false when it does not exist.
    pub fn set_edge_stroke(&mut self, id: u32, stroke: Option<Color>) -> (found: bool)
        requires
            old(self).wf(),
        ensures
            final(self).wf(),
            found == old(self).edge_live(id as int),
            found ==> final(self).edges@ == old(self).edges@.update(
                id as int,
                Some(Edge { stroke, ..old(self).edges@[id as int]->0 }),
            ),
            !found ==> final(self).edges@ == old(self).edges@,
            final(self).nodes@ == old(self).nodes@,
            final(self).same_extras(old(self)),
            final(self).layer_system == old(self).layer_system,
            final(self).geom_ver == old(self).geom_ver,
    {
        if (id as usize) < self.edges.len() && self.edges[id as usize].is_some() {
            let old_edge = self.edges[id as usize].take().unwrap();
            self.edges[id as usize] = Some(Edge { a: old_edge.a, b: old_edge.b, stroke, geometry: old_edge.geometry });
            proof {
                assert(self.edges@ =~= old(self).edges@.update(
                    id as int,
                    Some(Edge { stroke, ..old(self).edges@[id as int]->0 }),
                ));
                assert forall|i: int| #[trigger] self.edge_live(i) implies {
                    let e = self.edges@[i]->0;
                    &&& e.a != e.b
                    &&& self.node_live(e.a as int)
                    &&& self.node_live(e.b as int)
                } by {
                    assert(old(self).edge_live(i));
                }
                self.lemma_wf_after_edge_change(old(self));
            }
            true
        } else {
            false
        }
    }
}

/// The fill of the region with key `key`: regions start out filled, without a color.
pub open spec fn fill_of(fills: Map<u32, FillState>, key: u32) -> FillState {
    if fills.contains_key(key) {
        fills[key]
    } else {
        FillState { filled: true, color: None }
    }
}

/// The fills after toggling region `key`.
pub open spec fn toggled(fills: Map<u32, FillState>, key: u32) -> Map<u32, FillState> {
    fills.insert(key, FillState { filled: !fill_of(fills, key).filled, color: fill_of(fills, key).color })
}

/// Toggling a region twice gives it back its fill; a region that had a
/// recorded fill ends up with the same fills as before.
pub proof fn lemma_toggle_twice(fills: Map<u32, FillState>, key: u32)
    ensures
        fill_of(toggled(toggled(fills, key), key), key) == fill_of(fills, key),
        fills.contains_key(key) ==> toggled(toggled(fills, key), key) == fills,
{
    if fills.contains_key(key) {
        assert(toggled(toggled(fills, key), key) =~= fills);
    }
}

/// Setting a region's color keeps whether it is filled, and setting whether
/// it is filled keeps its color.
pub proof fn lemma_fill_and_color_independent(fills: Map<u32, FillState>, key: u32, filled: bool, c: Color)
    ensures
        fill_of(fills.insert(key, FillState { filled: fill_of(fills, key).filled, color: Some(c) }), key).filled
            == fill_of(fills, key).filled,
        fill_of(fills.insert(key, FillState { filled, color: fill_of(fills, key).color }), key).color
            == fill_of(fills, key).color,
{
}

impl<N, E> Graph<N, E> {
    // -----------------------------------------------------------------------
    // Region fills
    // -----------------------------------------------------------------------
    /// Toggle whether region `key` is filled; returns the new state.
    pub fn toggle_region(&mut self, key: u32) -> (filled: bool)
        requires
            old(self).wf(),
        ensures
            final(self).wf(),
            filled == !fill_of(old(self).fills@, key).filled,
            final(self).fills@ == toggled(old(self).fills@, key),
            final(self).nodes@ == old(self).nodes@,
            final(self).edges@ == old(self).edges@,
            final(self).shapes@ == old(self).shapes@,
            final(self).layer_system == old(self).layer_system,
            final(self).geom_ver == old(self).geom_ver,
    {
        let cur = match self.fills.get(&key) {
            Some(st) => *st,
            None => FillState { filled: true, color: None },
        };
        let next = !cur.filled;
        self.fills.insert(key, FillState { filled: next, color: cur.color });
        proof {
            self.lemma_wf_frame(old(self));
        }
        next
    }

    /// Replace the fills of all regions, as when regions are matched
    /// again after the geometry changed.
    pub fn replace_fills(&mut self, fills: HashMap<u32, FillState>)
        requires
            old(self).wf(),
        ensures
            final(self).wf(),
            final(self).fills@ == fills@,
            final(self).nodes@ == old(self).nodes@,
            final(self).edges@ == old(self).edges@,
            final(self).shapes@ == old(self).shapes@,
            final(self).layer_system == old(self).layer_system,
            final(self).geom_ver == old(self).geom_ver,
    {
        self.fills = fills;
        proof {
            self.lemma_wf_frame(old(self));
        }
    }

    /// Set whether region `key` is filled, keeping its color.
    pub fn set_region_fill(&mut self, key: u32, filled: bool)
        requires
            old(self).wf(),
        ensures
            final(self).wf(),
            final(self).fills@ == old(self).fills@.insert(
                key,
                FillState { filled, color: fill_of(old(self).fills@, key).color },
            ),
            final(self).nodes@ == old(self).nodes@,
            final(self).edges@ == old(self).edges@,
            final(self).shapes@ == old(self).shapes@,
            final(self).layer_system == old(self).layer_system,
            final(self).geom_ver == old(self).geom_ver,
    {
        let color = match self.fills.get(&key) {
            Some(st) => st.color,
            None => None,
        };
        self.fills.insert(key, FillState { filled, color });
        proof {
            self.lemma_wf_frame(old(self));
        }
    }

    /// Set the color of region `key`, keeping whether it is filled.
    pub fn set_region_color(&mut self, key: u32, r: u8, g: u8, b: u8, a: u8)
        requires
            old(self).wf(),
        ensures
            final(self).wf(),
            final(self).fills@ == old(self).fills@.insert(
                key,
                FillState { filled: fill_of(old(self).fills@, key).filled, color: Some(Color { r, g, b, a }) },
            ),
            final(self).nodes@ == old(self).nodes@,
            final(self).edges@ == old(self).edges@,
            final(self).shapes@ == old(self).shapes@,
            final(self).layer_system == old(self).layer_system,
            final(self).geom_ver == old(self).geom_ver,
    {
        let filled = match self.fills.get(&key) {
            Some(st) => st.filled,
            None => true,
        };
        self.fills.insert(key, FillState { filled, color: Some(Color { r, g, b, a }) });
        proof {
            self.lemma_wf_frame(old(self));
        }
    }

    /// Make region `key` use gradient `gradient_id` of `gradients`: the
    /// region keeps whether it is filled and loses its plain color. False,
    /// with nothing changed, when there is no such gradient.
    pub fn set_region_gradient<G>(&mut self, key: u32, gradient_id: GradientId, gradients: &Gradients<G>) -> (found: bool)
        requires
            old(self).wf(),
        ensures
            final(self).wf(),
            found == gradients.map@.contains_key(gradient_id),
            found ==> final(self).fills@ == old(self).fills@.insert(
                key,
                FillState { filled: fill_of(old(self).fills@, key).filled, color: None },
            ),
            !found ==> final(self).fills@ == old(self).fills@,
            final(self).nodes@ == old(self).nodes@,
            final(self).edges@ == old(self).edges@,
            final(self).shapes@ == old(self).shapes@,
            final(self).layer_system == old(self).layer_system,
            final(self).geom_ver == old(self).geom_ver,
    {
        if !gradients.contains(gradient_id) {
            return false;
        }
        let filled = match self.fills.get(&key) {
            Some(st) => st.filled,
            None => true,
        };
        self.fills.insert(key, FillState { filled, color: None });
        proof {
            self.lemma_wf_frame(old(self));
        }
        true
    }

    /// The recorded fill of region `key`, if any.
    pub fn get_region_fill(&self, key: u32) -> (r: Option<FillState>)
        ensures
            r == (if self.fills@.contains_key(key) {
                Some(self.fills@[key])
            } else {
                None
            }),
    {
        match self.fills.get(&key) {
            Some(st) => Some(*st),
            None => None,
        }
    }

    // -----------------------------------------------------------------------
    // Shapes
    // -----------------------------------------------------------------------
    /// Whether every id in `edge_ids` names an existing edge.
    fn all_edges_live(&self, edge_ids: &[u32]) -> (r: bool)
        ensures
            r == (forall|k: int| 0 <= k < edge_ids@.len() ==> #[trigger] self.edge_live(edge_ids@[k] as int)),
    {
        let mut i: usize = 0;
        while i < edge_ids.len()
            invariant
                i <= edge_ids@.len(),
                forall|k: int| 0 <= k < i ==> #[trigger] self.edge_live(edge_ids@[k] as int),
            decreases edge_ids@.len() - i,
        {
            let eid = edge_ids[i];
            if self.get_edge(eid).is_none() {
                return false;
            }
            i = i + 1;
        }
        true
    }

    /// Create a shape from an ordered list of edge IDs with the given fill
    /// rule. None when an edge ID is invalid; otherwise the shape's id is
    /// the number of shape slots.
    pub fn create_shape_with_fill_rule(&mut self, edge_ids: &[u32], closed: bool, fill_rule: FillRule) -> (r: Option<u32>)
        requires
            old(self).wf(),
            old(self).shapes@.len() < u32::MAX,
        ensures
            final(self).wf(),
            r is None <==> exists|k: int| 0 <= k < edge_ids@.len() && !old(self).edge_live(#[trigger] edge_ids@[k] as int),
            r is None ==> final(self).shapes@ == old(self).shapes@,
            r matches Some(id) ==> {
                &&& id == old(self).shapes@.len()
                &&& final(self).shapes@.len() == old(self).shapes@.len() + 1
                &&& final(self).shapes@.drop_last() == old(self).shapes@
                &&& final(self).shapes@.last() matches Some(s) && s.id == id && s.edges@ == edge_ids@
                    && s.closed == closed && s.fill_rule == fill_rule
            },
            final(self).nodes@ == old(self).nodes@,
            final(self).edges@ == old(self).edges@,
            final(self).fills@ == old(self).fills@,
            final(self).layer_system == old(self).layer_system,
            final(self).geom_ver == old(self).geom_ver,
    {
        if !self.all_edges_live(edge_ids) {
            return None;
        }
        let id = self.shapes.len() as u32;
        let mut edges: Vec<u32> = Vec::new();
        let mut i: usize = 0;
        while i < edge_ids.len()
            invariant
                i <= edge_ids@.len(),
                edges@ == edge_ids@.take(i as int),
                forall|k: int| 0 <= k < edge_ids@.len() ==> #[trigger] old(self).edge_live(edge_ids@[k] as int),
            decreases edge_ids@.len() - i,
        {
            edges.push(edge_ids[i]);
            assert(edge_ids@.take(i + 1) =~= edge_ids@.take(i as int).push(edge_ids@[i as int]));
            i = i + 1;
        }
        assert(edge_ids@.take(i as int) =~= edge_ids@);
        self.shapes.push(Some(Shape { id, edges, closed, fill_rule }));
        proof {
            assert forall|i: int| #[trigger] self.edge_live(i) implies {
                let e = self.edges@[i]->0;
                &&& e.a != e.b
                &&& self.node_live(e.a as int)
                &&& self.node_live(e.b as int)
            } by {
                assert(old(self).edge_live(i));
            }
            assert(self.shapes@.drop_last() =~= old(self).shapes@);
            assert forall|j: int| #[trigger] self.shape_live(j) implies self.shapes@[j]->0.id == j by {
                if j < old(self).shapes@.len() {
                    assert(old(self).shape_live(j));
                }
            }
        }
        Some(id)
    }

    /// Create a shape with the non-zero fill rule.
    pub fn create_shape(&mut self, edge_ids: &[u32], closed: bool) -> (r: Option<u32>)
        requires
            old(self).wf(),
            old(self).shapes@.len() < u32::MAX,
        ensures
            final(self).wf(),
            r is None <==> exists|k: int| 0 <= k < edge_ids@.len() && !old(self).edge_live(#[trigger] edge_ids@[k] as int),
            r is None ==> final(self).shapes@ == old(self).shapes@,
            r matches Some(id) ==> {
                &&& id == old(self).shapes@.len()
                &&& final(self).shapes@.len() == old(self).shapes@.len() + 1
                &&& final(self).shapes@.drop_last() == old(self).shapes@
                &&& final(self).shapes@.last() matches Some(s) && s.id == id && s.edges@ == edge_ids@
                    && s.closed == closed && s.fill_rule == FillRule::NonZero
            },
            final(self).nodes@ == old(self).nodes@,
            final(self).edges@ == old(self).edges@,
            final(self).fills@ == old(self).fills@,
            final(self).layer_system == old(self).layer_system,
            final(self).geom_ver == old(self).geom_ver,
    {
        self.create_shape_with_fill_rule(edge_ids, closed, FillRule::NonZero)
    }

    /// Delete a shape by ID; true when the shape existed.
    pub fn delete_shape(&mut self, id: u32) -> (deleted: bool)
        requires
            old(self).wf(),
        ensures
            final(self).wf(),
            deleted == old(self).shape_live(id as int),
            deleted ==> final(self).shapes@ == old(self).shapes@.update(id as int, None),
            !deleted ==> final(self).shapes@ == old(self).shapes@,
            final(self).nodes@ == old(self).nodes@,
            final(self).edges@ == old(self).edges@,
            final(self).fills@ == old(self).fills@,
            final(self).layer_system == old(self).layer_system,
            final(self).geom_ver == old(self).geom_ver,
    {
        if (id as usize) < self.shapes.len() && self.shapes[id as usize].is_some() {
            self.shapes[id as usize] = None;
            proof {
                assert forall|j: int| #[trigger] self.shape_live(j) implies self.shapes@[j]->0.id == j by {
                    assert(old(self).shape_live(j));
                }
                assert forall|i: int| #[trigger] self.edge_live(i) implies {
                    let e = self.edges@[i]->0;
                    &&& e.a != e.b
                    &&& self.node_live(e.a as int)
                    &&& self.node_live(e.b as int)
                } by {
                    assert(old(self).edge_live(i));
                }
            }
            true
        } else {
            false
        }
    }

    /// A shape by ID.
    pub fn get_shape(&self, id: u32) -> (r: Option<&Shape>)
        ensures
            r == (if self.shape_live(id as int) {
                Some(&self.shapes@[id as int]->0)
            } else {
                None
            }),
    {
        if (id as usize) < self.shapes.len() {
            match &self.shapes[id as usize] {
                Some(s) => Some(s),
                None => None,
            }
        } else {
            None
        }
    }

    /// The edge IDs that form a shape.
    pub fn get_shape_edges(&self, id: u32) -> (r: Option<&[u32]>)
        ensures
            r is Some <==> self.shape_live(id as int),
            r matches Some(es) ==> es@ == (self.shapes@[id as int]->0).edges@,
    {
        match self.get_shape(id) {
            Some(s) => Some(s.edges.as_slice()),
            None => None,
        }
    }

    /// Set the fill rule of a shape; false when it does not exist.
    pub fn set_shape_fill_rule(&mut self, id: u32, fill_rule: FillRule) -> (found: bool)
        requires
            old(self).wf(),
        ensures
            final(self).wf(),
            found == old(self).shape_live(id as int),
            found ==> final(self).shapes@.len() == old(self).shapes@.len(),
            found ==> forall|j: int| 0 <= j < old(self).shapes@.len() && j != id ==> #[trigger] final(self).shapes@[j] == old(self).shapes@[j],
            found ==> (final(self).shapes@[id as int] matches Some(s) && s.fill_rule == fill_rule
                && s.id == (old(self).shapes@[id as int]->0).id && s.edges@ == (old(self).shapes@[id as int]->0).edges@
                && s.closed == (old(self).shapes@[id as int]->0).closed),
            !found ==> final(self).shapes@ == old(self).shapes@,
            final(self).nodes@ == old(self).nodes@,
            final(self).edges@ == old(self).edges@,
            final(self).fills@ == old(self).fills@,
            final(self).layer_system == old(self).layer_system,
            final(self).geom_ver == old(self).geom_ver,
    {
        if (id as usize) < self.shapes.len() && self.shapes[id as usize].is_some() {
            let s = self.shapes[id as usize].take().unwrap();
            self.shapes[id as usize] = Some(Shape { id: s.id, edges: s.edges, closed: s.closed, fill_rule });
            proof {
                assert forall|j: int| #[trigger] self.shape_live(j) implies self.shapes@[j]->0.id == j by {
                    assert(old(self).shape_live(j));
                }
                assert forall|i: int| #[trigger] self.edge_live(i) implies {
                    let e = self.edges@[i]->0;
                    &&& e.a != e.b
                    &&& self.node_live(e.a as int)
                    &&& self.node_live(e.b as int)
                } by {
                    assert(old(self).edge_live(i));
                }
            }
            true
        } else {
            false
        }
    }

    /// IDs of all existing shapes, in increasing order.
    pub fn get_shape_ids(&self) -> (ids: Vec<u32>)
        requires
            self.wf(),
        ensures
            forall|k: int| 0 <= k < ids@.len() ==> #[trigger] self.shape_live(ids@[k] as int),
            forall|j: int| #[trigger] self.shape_live(j) ==> ids@.contains(j as u32),
            forall|a: int, b: int| 0 <= a < b < ids@.len() ==> #[trigger] ids@[a] < #[trigger] ids@[b],
    {
        let mut ids: Vec<u32> = Vec::new();
        let mut i: usize = 0;
        while i < self.shapes.len()
            invariant
                i <= self.shapes@.len(),
                self.shapes@.len() <= u32::MAX,
                forall|k: int| 0 <= k < ids@.len() ==> self.shape_live(#[trigger] ids@[k] as int),
                forall|k: int| 0 <= k < ids@.len() ==> #[trigger] ids@[k] < i,
                forall|j: int| 0 <= j < i && #[trigger] self.shape_live(j) ==> ids@.contains(j as u32),
                forall|a: int, b: int| 0 <= a < b < ids@.len() ==> #[trigger] ids@[a] < #[trigger] ids@[b],
            decreases self.shapes@.len() - i,
        {
            if self.shapes[i].is_some() {
                let ghost before = ids@;
                proof {
                    assert forall|a: int| 0 <= a < before.len() implies before[a] < i by {
                        assert(before[a] < i);
                    }
                }
                ids.push(i as u32);
                proof {
                    assert forall|j: int| 0 <= j < i + 1 && #[trigger] self.shape_live(j) implies ids@.contains(j as u32) by {
                        if j < i {
                            let q = choose|q: int| 0 <= q < before.len() && before[q] == j as u32;
                            assert(ids@[q] == j as u32);
                        } else {
                            assert(ids@[before.len() as int] == j as u32);
                        }
                    }
                }
            }
            i = i + 1;
        }
        ids
    }

    /// Number of existing shapes.
    pub fn shape_count(&self) -> (c: u32)
        requires
            self.wf(),
        ensures
            c == count_some(self.shapes@),
    {
        let mut c: u32 = 0;
        let mut i: usize = 0;
        while i < self.shapes.len()
            invariant
                i <= self.shapes@.len(),
                self.shapes@.len() <= u32::MAX,
                c == count_some(self.shapes@.take(i as int)),
            decreases self.shapes@.len() - i,
        {
            proof {
                assert(self.shapes@.take(i + 1).drop_last() =~= self.shapes@.take(i as int));
                lemma_count_some_bound(self.shapes@.take(i as int));
            }
            if self.shapes[i].is_some() {
                c = c + 1;
            }
            i = i + 1;
        }
        assert(self.shapes@.take(i as int) =~= self.shapes@);
        c
    }
}

} // verus!
