//! The checked forms of the editing operations: each checks its arguments
//! in a fixed order, answers the first failed check with a structured
//! error and leaves the network as it was, and otherwise performs the
//! operation and answers with its result.

use vstd::prelude::*;
use crate::api::{edge_exists, region_exists};
use crate::errors::{err, invalid_id, ok, invalid_id_reply, plain_error_reply, Reply};
use crate::graph::{Graph, Edge, touches, fill_of, toggled, incident_ids};
use crate::graph_layers::same_forest;
use crate::layers::{layer_pos, edge_assigned, edge_unassigned, group_created, group_removed, Layer, Group};
use crate::model::{Color, FillState, FillRule};
use crate::cycles::{loops_in_order, inferable_loop, holds_loop_shape, inferred_loops};
use crate::store::Gradients;

verus! {

/// `b` is the network `a`, untouched.
pub open spec fn unchanged<N, E>(a: &Graph<N, E>, b: &Graph<N, E>) -> bool {
    &&& b.nodes@ == a.nodes@
    &&& b.edges@ == a.edges@
    &&& b.shapes@ == a.shapes@
    &&& b.fills@ == a.fills@
    &&& same_forest(&b.layer_system, &a.layer_system)
    &&& b.geom_ver == a.geom_ver
}

/// `b` is `a` after removing node `id` and the edges that touch it.
pub open spec fn node_removed<N, E>(a: &Graph<N, E>, b: &Graph<N, E>, id: u32) -> bool {
    &&& b.nodes@ == a.nodes@.update(id as int, None)
    &&& b.edges@.len() == a.edges@.len()
    &&& forall|i: int|
        0 <= i < a.edges@.len() ==> #[trigger] b.edges@[i] == (match a.edges@[i] {
            Some(e) => if touches(e, id) {
                None
            } else {
                Some(e)
            },
            None => None,
        })
    &&& b.geom_ver == a.geom_ver.wrapping_add(1)
    &&& b.same_extras(a)
}

/// Removing a node removes exactly the edges that `incident_edges` lists
/// for it, and keeps every other edge as it was.
pub proof fn lemma_node_removal_removes_incident_edges<N, E>(a: &Graph<N, E>, b: &Graph<N, E>, id: u32, e: u32)
    requires
        a.wf(),
        node_removed(a, b, id),
        e < a.edges@.len(),
    ensures
        incident_ids(a.edges@, id, a.edges@.len() as int).contains(e) ==> !b.edge_live(e as int) && a.edge_live(e as int),
        !incident_ids(a.edges@, id, a.edges@.len() as int).contains(e) ==> b.edges@[e as int] == a.edges@[e as int],
{
    crate::graph::lemma_incident_ids_contains(a.edges@, id, a.edges@.len() as int, e);
}

/// `b` is `a` after adding edge `id` from `x` to `y` with `geometry`, put
/// into the default layer's root group.
pub open spec fn edge_added<N, E>(a: &Graph<N, E>, b: &Graph<N, E>, x: u32, y: u32, geometry: E, id: u32) -> bool {
    &&& id == a.edges@.len()
    &&& b.edges@ == a.edges@.push(Some(Edge { a: x, b: y, stroke: None, geometry }))
    &&& (if a.layer_system.layers@.len() > 0 {
        edge_assigned(&a.layer_system, &b.layer_system, id, a.layer_system.layers@[0].root_group)
    } else {
        b.layer_system == a.layer_system
    })
    &&& b.geom_ver == a.geom_ver.wrapping_add(1)
    &&& b.nodes@ == a.nodes@
    &&& b.shapes@ == a.shapes@
    &&& b.fills@ == a.fills@
}

/// `b` is `a` after removing edge `id` and taking it out of its group.
pub open spec fn edge_removed<N, E>(a: &Graph<N, E>, b: &Graph<N, E>, id: u32) -> bool {
    &&& b.edges@ == a.edges@.update(id as int, None)
    &&& edge_unassigned(&a.layer_system, &b.layer_system, id)
    &&& b.geom_ver == a.geom_ver.wrapping_add(1)
    &&& b.nodes@ == a.nodes@
    &&& b.shapes@ == a.shapes@
    &&& b.fills@ == a.fills@
}

/// The first id of `ids`, in order, that names no existing edge.
pub open spec fn first_unknown_edge<N, E>(g: &Graph<N, E>, ids: Seq<u32>) -> Option<u32>
    decreases ids.len(),
{
    if ids.len() == 0 {
        None
    } else if !g.edge_live(ids[0] as int) {
        Some(ids[0])
    } else {
        first_unknown_edge(g, ids.drop_first())
    }
}

proof fn lemma_first_unknown_edge_none<N, E>(g: &Graph<N, E>, ids: Seq<u32>)
    ensures
        first_unknown_edge(g, ids) is None <==> forall|k: int| 0 <= k < ids.len() ==> g.edge_live(#[trigger] ids[k] as int),
    decreases ids.len(),
{
    if ids.len() > 0 {
        lemma_first_unknown_edge_none(g, ids.drop_first());
        if first_unknown_edge(g, ids) is None {
            assert forall|k: int| 0 <= k < ids.len() implies g.edge_live(#[trigger] ids[k] as int) by {
                if k > 0 {
                    assert(ids.drop_first()[k - 1] == ids[k]);
                }
            }
        } else if g.edge_live(ids[0] as int) {
            let t = ids.drop_first();
            let k = choose|k: int| 0 <= k < t.len() && !g.edge_live(#[trigger] t[k] as int);
            assert(t[k] == ids[k + 1]);
        }
    }
}

impl<N, E> Graph<N, E> {
    /// Remove node `id` and its edges; an `invalid_id` error for an unknown node.
    pub fn remove_node_res(&mut self, id: u32) -> (r: Reply<bool>)
        requires
            old(self).wf(),
        ensures
            final(self).wf(),
            !old(self).node_live(id as int) ==> invalid_id_reply(r, "node"@, id) && unchanged(old(self), final(self)),
            old(self).node_live(id as int) ==> r == Reply::<bool>::Success(true) && node_removed(old(self), final(self), id),
    {
        if self.get_node(id).is_none() {
            return invalid_id("node", id);
        }
        ok(self.remove_node(id))
    }

    /// Add an edge from `a` to `b`: an `invalid_id` error for an unknown
    /// endpoint (`a` checked first), an `invalid_edge` error when the
    /// endpoints are the same node.
    pub fn add_edge_res(&mut self, a: u32, b: u32, geometry: E) -> (r: Reply<u32>)
        requires
            old(self).wf(),
            old(self).edges@.len() < u32::MAX,
        ensures
            final(self).wf(),
            !old(self).node_live(a as int) ==> invalid_id_reply(r, "node"@, a) && unchanged(old(self), final(self)),
            old(self).node_live(a as int) && !old(self).node_live(b as int) ==> invalid_id_reply(r, "node"@, b)
                && unchanged(old(self), final(self)),
            old(self).node_live(a as int) && old(self).node_live(b as int) && a == b ==> plain_error_reply(
                r,
                "invalid_edge"@,
                "edge endpoints cannot be the same node"@,
            ) && unchanged(old(self), final(self)),
            old(self).node_live(a as int) && old(self).node_live(b as int) && a != b ==> r
                == Reply::<u32>::Success(old(self).edges@.len() as u32) && edge_added(
                old(self),
                final(self),
                a,
                b,
                geometry,
                old(self).edges@.len() as u32,
            ),
    {
        if self.get_node(a).is_none() {
            return invalid_id("node", a);
        }
        if self.get_node(b).is_none() {
            return invalid_id("node", b);
        }
        if a == b {
            return err("invalid_edge", String::from_str("edge endpoints cannot be the same node"), None);
        }
        match self.add_edge(a, b, geometry) {
            Some(eid) => ok(eid),
            None => err("invalid_edge", String::from_str("failed to add edge"), None),
        }
    }

    /// Remove edge `id`; an `invalid_id` error for an unknown edge.
    pub fn remove_edge_res(&mut self, id: u32) -> (r: Reply<bool>)
        requires
            old(self).wf(),
        ensures
            final(self).wf(),
            !old(self).edge_live(id as int) ==> invalid_id_reply(r, "edge"@, id) && unchanged(old(self), final(self)),
            old(self).edge_live(id as int) ==> r == Reply::<bool>::Success(true) && edge_removed(old(self), final(self), id),
    {
        if !edge_exists(self, id) {
            return invalid_id("edge", id);
        }
        ok(self.remove_edge(id))
    }

    /// Create a closed or open shape from `edge_ids`; an `invalid_id` error
    /// names the first id that is not an existing edge.
    pub fn create_shape_res(&mut self, edge_ids: &[u32], closed: bool) -> (r: Reply<u32>)
        requires
            old(self).wf(),
            old(self).shapes@.len() < u32::MAX,
        ensures
            final(self).wf(),
            first_unknown_edge(old(self), edge_ids@) matches Some(e) ==> invalid_id_reply(r, "edge"@, e)
                && unchanged(old(self), final(self)),
            first_unknown_edge(old(self), edge_ids@) is None ==> {
                &&& r == Reply::<u32>::Success(old(self).shapes@.len() as u32)
                &&& final(self).shapes@.drop_last() == old(self).shapes@
                &&& final(self).shapes@.last() matches Some(s) && s.id == old(self).shapes@.len() && s.edges@ == edge_ids@
                    && s.closed == closed && s.fill_rule == FillRule::NonZero
                &&& final(self).nodes@ == old(self).nodes@
                &&& final(self).edges@ == old(self).edges@
                &&& final(self).fills@ == old(self).fills@
                &&& final(self).layer_system == old(self).layer_system
                &&& final(self).geom_ver == old(self).geom_ver
            },
    {
        let mut i: usize = 0;
        assert(edge_ids@.skip(0) =~= edge_ids@);
        while i < edge_ids.len()
            invariant
                self.wf(),
                i <= edge_ids@.len(),
                first_unknown_edge(self, edge_ids@) == first_unknown_edge(self, edge_ids@.skip(i as int)),
            decreases edge_ids@.len() - i,
        {
            let id = edge_ids[i];
            assert(edge_ids@.skip(i as int)[0] == id);
            if !edge_exists(self, id) {
                return invalid_id("edge", id);
            }
            assert(edge_ids@.skip(i as int).drop_first() =~= edge_ids@.skip(i + 1));
            i = i + 1;
        }
        proof {
            assert(edge_ids@.skip(i as int) =~= Seq::<u32>::empty());
            lemma_first_unknown_edge_none(self, edge_ids@);
        }
        match self.create_shape(edge_ids, closed) {
            Some(shape_id) => ok(shape_id),
            None => err("shape_creation_failed", String::from_str("failed to create shape"), None),
        }
    }

    /// Delete shape `id`; an `invalid_id` error for an unknown shape.
    pub fn delete_shape_res(&mut self, id: u32) -> (r: Reply<bool>)
        requires
            old(self).wf(),
        ensures
            final(self).wf(),
            !old(self).shape_live(id as int) ==> invalid_id_reply(r, "shape"@, id) && unchanged(old(self), final(self)),
            old(self).shape_live(id as int) ==> r == Reply::<bool>::Success(true) && final(self).shapes@
                == old(self).shapes@.update(id as int, None) && final(self).nodes@ == old(self).nodes@
                && final(self).edges@ == old(self).edges@ && final(self).fills@ == old(self).fills@
                && final(self).layer_system == old(self).layer_system && final(self).geom_ver == old(self).geom_ver,
    {
        if self.get_shape(id).is_none() {
            return invalid_id("shape", id);
        }
        ok(self.delete_shape(id))
    }

    /// The edges of shape `id`; an `invalid_id` error for an unknown shape.
    pub fn get_shape_edges_res(&self, id: u32) -> (r: Reply<Vec<u32>>)
        ensures
            !self.shape_live(id as int) ==> invalid_id_reply(r, "shape"@, id),
            self.shape_live(id as int) ==> r is Success && (r->Success_0)@ == (self.shapes@[id as int]->0).edges@,
    {
        match self.get_shape_edges(id) {
            Some(edges) => {
                let mut v: Vec<u32> = Vec::new();
                let mut i: usize = 0;
                while i < edges.len()
                    invariant
                        i <= edges@.len(),
                        v@ == edges@.take(i as int),
                    decreases edges@.len() - i,
                {
                    v.push(edges[i]);
                    assert(edges@.take(i + 1) =~= edges@.take(i as int).push(edges@[i as int]));
                    i = i + 1;
                }
                assert(edges@.take(i as int) =~= edges@);
                ok(v)
            },
            None => invalid_id("shape", id),
        }
    }

    /// Toggle region `key` among the current regions `region_keys`; an
    /// `invalid_id` error when it is not one of them.
    pub fn toggle_region_res(&mut self, region_keys: &[u32], key: u32) -> (r: Reply<bool>)
        requires
            old(self).wf(),
        ensures
            final(self).wf(),
            !region_keys@.contains(key) ==> invalid_id_reply(r, "region"@, key) && unchanged(old(self), final(self)),
            region_keys@.contains(key) ==> r == Reply::<bool>::Success(!fill_of(old(self).fills@, key).filled)
                && final(self).fills@ == toggled(old(self).fills@, key) && final(self).nodes@ == old(self).nodes@
                && final(self).edges@ == old(self).edges@ && final(self).shapes@ == old(self).shapes@
                && final(self).layer_system == old(self).layer_system && final(self).geom_ver == old(self).geom_ver,
    {
        if !region_exists(region_keys, key) {
            return invalid_id("region", key);
        }
        ok(self.toggle_region(key))
    }

    /// Set whether region `key` among `region_keys` is filled; an
    /// `invalid_id` error when it is not one of them.
    pub fn set_region_fill_res(&mut self, region_keys: &[u32], key: u32, filled: bool) -> (r: Reply<bool>)
        requires
            old(self).wf(),
        ensures
            final(self).wf(),
            !region_keys@.contains(key) ==> invalid_id_reply(r, "region"@, key) && unchanged(old(self), final(self)),
            region_keys@.contains(key) ==> r == Reply::<bool>::Success(true) && final(self).fills@
                == old(self).fills@.insert(key, FillState { filled, color: fill_of(old(self).fills@, key).color })
                && final(self).nodes@ == old(self).nodes@ && final(self).edges@ == old(self).edges@
                && final(self).shapes@ == old(self).shapes@ && final(self).layer_system == old(self).layer_system
                && final(self).geom_ver == old(self).geom_ver,
    {
        if !region_exists(region_keys, key) {
            return invalid_id("region", key);
        }
        self.set_region_fill(key, filled);
        ok(true)
    }

    /// Set the color of region `key` among `region_keys`; an `invalid_id`
    /// error when it is not one of them.
    pub fn set_region_color_res(&mut self, region_keys: &[u32], key: u32, r: u8, g: u8, b: u8, a: u8) -> (res: Reply<bool>)
        requires
            old(self).wf(),
        ensures
            final(self).wf(),
            !region_keys@.contains(key) ==> invalid_id_reply(res, "region"@, key) && unchanged(old(self), final(self)),
            region_keys@.contains(key) ==> res == Reply::<bool>::Success(true) && final(self).fills@
                == old(self).fills@.insert(
                key,
                FillState { filled: fill_of(old(self).fills@, key).filled, color: Some(Color { r, g, b, a }) },
            ) && final(self).nodes@ == old(self).nodes@ && final(self).edges@ == old(self).edges@
                && final(self).shapes@ == old(self).shapes@ && final(self).layer_system == old(self).layer_system
                && final(self).geom_ver == old(self).geom_ver,
    {
        if !region_exists(region_keys, key) {
            return invalid_id("region", key);
        }
        self.set_region_color(key, r, g, b, a);
        ok(true)
    }
}


impl<N, E> Graph<N, E> {
    /// Create a layer; answers with its id.
    pub fn create_layer_res(&mut self, name: String) -> (r: Reply<u32>)
        requires
            old(self).wf(),
            old(self).layer_system.next_id < u32::MAX - 1,
        ensures
            final(self).wf(),
            r == Reply::<u32>::Success(old(self).layer_system.next_id),
            crate::layers::layer_created(&old(self).layer_system, &final(self).layer_system, name@, old(self).layer_system.next_id),
            final(self).nodes@ == old(self).nodes@,
            final(self).edges@ == old(self).edges@,
            final(self).shapes@ == old(self).shapes@,
            final(self).fills@ == old(self).fills@,
            final(self).geom_ver == old(self).geom_ver,
    {
        ok(self.create_layer(name))
    }

    /// Remove layer `id`, and its edges when `remove_edges` is set; an
    /// `invalid_id` error for an unknown layer.
    pub fn remove_layer_res(&mut self, id: u32, remove_edges: bool) -> (r: Reply<bool>)
        requires
            old(self).wf(),
        ensures
            final(self).wf(),
            layer_pos(old(self).layer_system.layers@, id) is None ==> invalid_id_reply(r, "layer"@, id)
                && unchanged(old(self), final(self)),
            layer_pos(old(self).layer_system.layers@, id) is Some ==> r == Reply::<bool>::Success(true)
                && exists|gone: Seq<u32>|
                crate::layers::layer_removed(&old(self).layer_system, &final(self).layer_system, id, gone),
    {
        if self.remove_layer(id, remove_edges) {
            ok(true)
        } else {
            invalid_id("layer", id)
        }
    }

    /// Rename layer `id`; an `invalid_id` error for an unknown layer.
    pub fn rename_layer_res(&mut self, id: u32, name: String) -> (r: Reply<bool>)
        requires
            old(self).wf(),
        ensures
            final(self).wf(),
            layer_pos(old(self).layer_system.layers@, id) is None ==> invalid_id_reply(r, "layer"@, id)
                && unchanged(old(self), final(self)),
            layer_pos(old(self).layer_system.layers@, id) is Some ==> r == Reply::<bool>::Success(true)
                && final(self).layer_system.layers@ == old(self).layer_system.layers@.update(
                layer_pos(old(self).layer_system.layers@, id)->0,
                Layer { name, ..old(self).layer_system.layers@[layer_pos(old(self).layer_system.layers@, id)->0] },
            ),
    {
        if self.rename_layer(id, name) {
            ok(true)
        } else {
            invalid_id("layer", id)
        }
    }

    /// Show or hide layer `id`; an `invalid_id` error for an unknown layer.
    pub fn set_layer_visibility_res(&mut self, id: u32, visible: bool) -> (r: Reply<bool>)
        requires
            old(self).wf(),
        ensures
            final(self).wf(),
            layer_pos(old(self).layer_system.layers@, id) is None ==> invalid_id_reply(r, "layer"@, id)
                && unchanged(old(self), final(self)),
            layer_pos(old(self).layer_system.layers@, id) is Some ==> r == Reply::<bool>::Success(true)
                && final(self).layer_system.layers@ == old(self).layer_system.layers@.update(
                layer_pos(old(self).layer_system.layers@, id)->0,
                Layer { visible, ..old(self).layer_system.layers@[layer_pos(old(self).layer_system.layers@, id)->0] },
            ) && final(self).geom_ver == old(self).geom_ver.wrapping_add(1),
    {
        if self.set_layer_visibility(id, visible) {
            ok(true)
        } else {
            invalid_id("layer", id)
        }
    }

    /// Set the z-index of layer `id`; an `invalid_id` error for an unknown layer.
    pub fn set_layer_z_index_res(&mut self, id: u32, z: i32) -> (r: Reply<bool>)
        requires
            old(self).wf(),
        ensures
            final(self).wf(),
            layer_pos(old(self).layer_system.layers@, id) is None ==> invalid_id_reply(r, "layer"@, id)
                && unchanged(old(self), final(self)),
            layer_pos(old(self).layer_system.layers@, id) is Some ==> r == Reply::<bool>::Success(true)
                && final(self).layer_system.layers@ == old(self).layer_system.layers@.update(
                layer_pos(old(self).layer_system.layers@, id)->0,
                Layer { z_index: z, ..old(self).layer_system.layers@[layer_pos(old(self).layer_system.layers@, id)->0] },
            ),
    {
        if self.set_layer_z_index(id, z) {
            ok(true)
        } else {
            invalid_id("layer", id)
        }
    }

    /// Create a group under `parent_id`; answers with its id, or with an
    /// `invalid_id` error naming the parent when there is no such group.
    pub fn create_group_res(&mut self, name: String, parent_id: u32) -> (r: Reply<u32>)
        requires
            old(self).wf(),
            old(self).layer_system.next_id < u32::MAX,
        ensures
            final(self).wf(),
            !old(self).layer_system.groups@.contains_key(parent_id) ==> invalid_id_reply(r, "group"@, parent_id)
                && unchanged(old(self), final(self)),
            old(self).layer_system.groups@.contains_key(parent_id) ==> r == Reply::<u32>::Success(
                old(self).layer_system.next_id,
            ) && group_created(
                &old(self).layer_system,
                &final(self).layer_system,
                name@,
                parent_id,
                Some(old(self).layer_system.next_id),
            ),
    {
        match self.create_group(name, parent_id) {
            Some(id) => ok(id),
            None => invalid_id("group", parent_id),
        }
    }

    /// Remove group `id`, moving its contents to its parent; an
    /// `invalid_id` error for an unknown or root group.
    pub fn remove_group_res(&mut self, id: u32) -> (r: Reply<bool>)
        requires
            old(self).wf(),
        ensures
            final(self).wf(),
            !(old(self).layer_system.groups@.contains_key(id) && old(self).layer_system.groups@[id].parent is Some)
                ==> invalid_id_reply(r, "group"@, id) && unchanged(old(self), final(self)),
            old(self).layer_system.groups@.contains_key(id) && old(self).layer_system.groups@[id].parent is Some
                ==> r == Reply::<bool>::Success(true) && group_removed(
                &old(self).layer_system,
                &final(self).layer_system,
                id,
                old(self).layer_system.groups@[id].parent->0,
            ),
    {
        if self.remove_group(id) {
            ok(true)
        } else {
            invalid_id("group", id)
        }
    }

    /// Rename group `id`; an `invalid_id` error for an unknown group.
    pub fn rename_group_res(&mut self, id: u32, name: String) -> (r: Reply<bool>)
        requires
            old(self).wf(),
        ensures
            final(self).wf(),
            !old(self).layer_system.groups@.contains_key(id) ==> invalid_id_reply(r, "group"@, id)
                && unchanged(old(self), final(self)),
            old(self).layer_system.groups@.contains_key(id) ==> r == Reply::<bool>::Success(true)
                && final(self).layer_system.groups@ == old(self).layer_system.groups@.insert(
                id,
                Group { name, ..old(self).layer_system.groups@[id] },
            ),
    {
        if self.rename_group(id, name) {
            ok(true)
        } else {
            invalid_id("group", id)
        }
    }

    /// Show or hide group `id`; an `invalid_id` error for an unknown group.
    pub fn set_group_visibility_res(&mut self, id: u32, visible: bool) -> (r: Reply<bool>)
        requires
            old(self).wf(),
        ensures
            final(self).wf(),
            !old(self).layer_system.groups@.contains_key(id) ==> invalid_id_reply(r, "group"@, id)
                && unchanged(old(self), final(self)),
            old(self).layer_system.groups@.contains_key(id) ==> r == Reply::<bool>::Success(true)
                && final(self).layer_system.groups@ == old(self).layer_system.groups@.insert(
                id,
                Group { visible, ..old(self).layer_system.groups@[id] },
            ) && final(self).geom_ver == old(self).geom_ver.wrapping_add(1),
    {
        if self.set_group_visibility(id, visible) {
            ok(true)
        } else {
            invalid_id("group", id)
        }
    }

    /// Put edge `edge_id` into group `group_id`: an `invalid_id` error for
    /// an unknown edge (nothing changes), or for an unknown group (the edge
    /// has then left its group, as the unchecked form does).
    pub fn add_edge_to_group_res(&mut self, edge_id: u32, group_id: u32) -> (r: Reply<bool>)
        requires
            old(self).wf(),
        ensures
            final(self).wf(),
            !old(self).edge_live(edge_id as int) ==> invalid_id_reply(r, "edge"@, edge_id)
                && unchanged(old(self), final(self)),
            old(self).edge_live(edge_id as int) ==> edge_assigned(
                &old(self).layer_system,
                &final(self).layer_system,
                edge_id,
                group_id,
            ),
            old(self).edge_live(edge_id as int) && !old(self).layer_system.groups@.contains_key(group_id)
                ==> invalid_id_reply(r, "group"@, group_id),
            old(self).edge_live(edge_id as int) && old(self).layer_system.groups@.contains_key(group_id)
                ==> r == Reply::<bool>::Success(true),
    {
        if !edge_exists(self, edge_id) {
            return invalid_id("edge", edge_id);
        }
        if self.add_edge_to_group(edge_id, group_id) {
            ok(true)
        } else {
            invalid_id("group", group_id)
        }
    }

    /// Infer shapes from closed loops; answers with the new shape ids.
    pub fn infer_shapes_res(&mut self) -> (r: Reply<Vec<u32>>)
        requires
            old(self).wf(),
            old(self).shapes@.len() + old(self).edges@.len() < u32::MAX,
        ensures
            final(self).wf(),
            r is Success,
            final(self).shapes@.len() == old(self).shapes@.len() + (r->Success_0)@.len(),
            final(self).shapes@.subrange(0, old(self).shapes@.len() as int) == old(self).shapes@,
            forall|j: int| 0 <= j < (r->Success_0)@.len() ==> #[trigger] (r->Success_0)@[j] == old(self).shapes@.len() + j,
            (r->Success_0)@.len() == inferred_loops(old(self).edges@, old(self).shapes@).len(),
            loops_in_order(inferred_loops(old(self).edges@, old(self).shapes@)),
            forall|j: int|
                0 <= j < (r->Success_0)@.len() ==> inferable_loop(
                    old(self).edges@,
                    old(self).shapes@,
                    #[trigger] inferred_loops(old(self).edges@, old(self).shapes@)[j],
                ),
            forall|j: int|
                0 <= j < (r->Success_0)@.len() ==> holds_loop_shape(
                    #[trigger] final(self).shapes@[old(self).shapes@.len() + j],
                    old(self).shapes@.len() + j,
                    inferred_loops(old(self).edges@, old(self).shapes@)[j],
                ),
            final(self).nodes@ == old(self).nodes@,
            final(self).edges@ == old(self).edges@,
            final(self).fills@ == old(self).fills@,
            final(self).layer_system == old(self).layer_system,
            final(self).geom_ver == old(self).geom_ver,
    {
        ok(self.infer_shapes())
    }

    /// Make region `key` use gradient `gradient_id`; an `invalid_id` error
    /// for an unknown gradient.
    pub fn set_region_gradient_res<G>(&mut self, key: u32, gradient_id: u32, gradients: &Gradients<G>) -> (r: Reply<bool>)
        requires
            old(self).wf(),
        ensures
            final(self).wf(),
            !gradients.map@.contains_key(gradient_id) ==> invalid_id_reply(r, "gradient"@, gradient_id)
                && unchanged(old(self), final(self)),
            gradients.map@.contains_key(gradient_id) ==> r == Reply::<bool>::Success(true) && final(self).fills@
                == old(self).fills@.insert(key, FillState { filled: fill_of(old(self).fills@, key).filled, color: None }),
    {
        if gradients.get(gradient_id).is_none() {
            return invalid_id("gradient", gradient_id);
        }
        if self.set_region_gradient(key, gradient_id, gradients) {
            ok(true)
        } else {
            err("region_not_found", String::from_str("region not found"), None)
        }
    }
}

/// Remove gradient `id`; an `invalid_id` error for an unknown gradient.
pub fn remove_gradient_res<G>(gradients: &mut Gradients<G>, id: u32) -> (r: Reply<bool>)
    requires
        old(gradients).wf(),
    ensures
        final(gradients).wf(),
        !old(gradients).map@.contains_key(id) ==> invalid_id_reply(r, "gradient"@, id)
            && final(gradients).map@ == old(gradients).map@,
        old(gradients).map@.contains_key(id) ==> r == Reply::<bool>::Success(true)
            && final(gradients).map@ == old(gradients).map@.remove(id),
        final(gradients).next_id == old(gradients).next_id,
{
    if gradients.remove(id) {
        ok(true)
    } else {
        invalid_id("gradient", id)
    }
}

} // verus!
