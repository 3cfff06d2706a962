//! Layers and groups: a forest of groups, one tree per layer, that
//! organizes edges. Every edge belongs to at most one group; an edge is
//! visible when every group on the way up to its layer, and the layer
//! itself, are visible.

use vstd::prelude::*;
use std::collections::{HashMap, HashSet};

verus! {

broadcast use vstd::std_specs::hash::group_hash_axioms;

/// Layer and group identifier type.
pub type LayerId = u32;

/// A group is a container for edges within a layer hierarchy.
pub struct Group {
    pub id: LayerId,
    pub name: String,
    /// Parent group ID, None if this is a layer's root group.
    pub parent: Option<LayerId>,
    /// Child group IDs.
    pub children: Vec<LayerId>,
    /// Edge IDs directly in this group.
    pub edges: Vec<u32>,
    pub visible: bool,
    pub locked: bool,
}

/// A layer is a top-level organizational container with a root group.
pub struct Layer {
    pub id: LayerId,
    pub name: String,
    /// Z-index for ordering (higher = on top).
    pub z_index: i32,
    pub visible: bool,
    pub locked: bool,
    /// The root group for this layer.
    pub root_group: LayerId,
}

/// Manages layers and groups for organizing edges hierarchically.
pub struct LayerSystem {
    pub layers: Vec<Layer>,
    pub groups: HashMap<LayerId, Group>,
    pub edge_to_group: HashMap<u32, LayerId>,
    /// The next identifier that will be handed out.
    pub next_id: LayerId,
}

// ---------------------------------------------------------------------------
// Model
// ---------------------------------------------------------------------------
/// The index of the first layer of `layers` with id `id`, if any.
pub open spec fn layer_pos(layers: Seq<Layer>, id: LayerId) -> Option<int>
    decreases layers.len(),
{
    if layers.len() == 0 {
        None
    } else if layers.last().id == id && layer_pos(layers.drop_last(), id) is None {
        Some(layers.len() - 1)
    } else {
        layer_pos(layers.drop_last(), id)
    }
}

/// The first layer whose root group is `root`, if any.
pub open spec fn layer_of_root(layers: Seq<Layer>, root: LayerId) -> Option<Layer>
    decreases layers.len(),
{
    if layers.len() == 0 {
        None
    } else if layers[0].root_group == root {
        Some(layers[0])
    } else {
        layer_of_root(layers.drop_first(), root)
    }
}

/// Whether group `gid` and every group above it are visible, and so is the
/// layer whose root ends the chain (a missing group or layer counts as visible).
pub open spec fn chain_visible(groups: Map<LayerId, Group>, layers: Seq<Layer>, gid: LayerId) -> bool
    decreases gid,
{
    if !groups.contains_key(gid) {
        true
    } else if !groups[gid].visible {
        false
    } else {
        match groups[gid].parent {
            Some(p) => if p < gid {
                chain_visible(groups, layers, p)
            } else {
                true
            },
            None => match layer_of_root(layers, gid) {
                Some(l) => l.visible,
                None => true,
            },
        }
    }
}

/// The layer at the top of the chain of groups above `gid`, if any.
pub open spec fn chain_layer(groups: Map<LayerId, Group>, layers: Seq<Layer>, gid: LayerId) -> Option<LayerId>
    decreases gid,
{
    if !groups.contains_key(gid) {
        None
    } else {
        match groups[gid].parent {
            Some(p) => if p < gid {
                chain_layer(groups, layers, p)
            } else {
                None
            },
            None => match layer_of_root(layers, gid) {
                Some(l) => Some(l.id),
                None => None,
            },
        }
    }
}

impl LayerSystem {
    /// The well-formedness of the layer forest.
    pub closed spec fn wf(&self) -> bool {
        let g = self.groups@;
        let em = self.edge_to_group@;
        let ls = self.layers@;
        &&& forall|k: LayerId| #[trigger] g.contains_key(k) ==> g[k].id == k && k < self.next_id
        &&& forall|k: LayerId| #[trigger] g.contains_key(k) ==> match g[k].parent {
            Some(p) => p < k && g.contains_key(p) && g[p].children@.contains(k),
            None => true,
        }
        &&& forall|k: LayerId, c: LayerId|
            g.contains_key(k) && #[trigger] g[k].children@.contains(c) ==> g.contains_key(c)
                && g[c].parent == Some(k)
        &&& forall|k: LayerId| #[trigger]
            g.contains_key(k) ==> g[k].children@.no_duplicates() && g[k].edges@.no_duplicates()
        &&& forall|k: LayerId, e: u32|
            g.contains_key(k) && #[trigger] g[k].edges@.contains(e) ==> em.contains_key(e) && em[e]
                == k
        &&& forall|e: u32| #[trigger]
            em.contains_key(e) ==> g.contains_key(em[e]) && g[em[e]].edges@.contains(e)
        &&& forall|i: int|
            0 <= i < ls.len() ==> #[trigger] ls[i].id < self.next_id && g.contains_key(
                ls[i].root_group,
            ) && g[ls[i].root_group].parent is None
        &&& forall|i: int, j: int|
            0 <= i < j < ls.len() ==> #[trigger] ls[i].id != #[trigger] ls[j].id
                && ls[i].root_group != ls[j].root_group
    }

    /// Whether an edge is visible: edges without a group are visible.
    pub open spec fn edge_visible(&self, edge_id: u32) -> bool {
        if self.edge_to_group@.contains_key(edge_id) {
            chain_visible(self.groups@, self.layers@, self.edge_to_group@[edge_id])
        } else {
            true
        }
    }

    /// The layer containing an edge, if any.
    pub open spec fn edge_layer(&self, edge_id: u32) -> Option<LayerId> {
        if self.edge_to_group@.contains_key(edge_id) {
            chain_layer(self.groups@, self.layers@, self.edge_to_group@[edge_id])
        } else {
            None
        }
    }
}

// ---------------------------------------------------------------------------
// Construction and lookup
// ---------------------------------------------------------------------------
/// `b` is `a` after creating a layer named `name` with id `layer_id`, whose
/// root group gets the next id.
pub open spec fn layer_created(a: &LayerSystem, b: &LayerSystem, name: Seq<char>, layer_id: LayerId) -> bool {
    &&& layer_id == a.next_id
    &&& b.next_id == a.next_id + 2
    &&& b.layers@.len() == a.layers@.len() + 1
    &&& b.layers@.drop_last() == a.layers@
    &&& b.layers@.last().id == layer_id
    &&& b.layers@.last().name@ == name
    &&& b.layers@.last().z_index == a.layers@.len() as i32
    &&& b.layers@.last().visible
    &&& !b.layers@.last().locked
    &&& b.layers@.last().root_group == layer_id + 1
    &&& b.groups@.contains_key((layer_id + 1) as LayerId)
    &&& b.groups@.remove((layer_id + 1) as LayerId) == a.groups@
    &&& b.groups@[(layer_id + 1) as LayerId].name@ == name + " (root)"@
    &&& b.groups@[(layer_id + 1) as LayerId].parent is None
    &&& b.groups@[(layer_id + 1) as LayerId].children@.len() == 0
    &&& b.groups@[(layer_id + 1) as LayerId].edges@.len() == 0
    &&& b.groups@[(layer_id + 1) as LayerId].visible
    &&& !b.groups@[(layer_id + 1) as LayerId].locked
    &&& b.edge_to_group@ == a.edge_to_group@
}

impl LayerSystem {
    /// A layer system holding one layer, "Layer 1".
    pub fn new() -> (sys: Self)
        ensures
            sys.wf(),
            sys.layers@.len() == 1,
            sys.layers@[0].id == 0,
            sys.layers@[0].name@ == "Layer 1"@,
            sys.layers@[0].root_group == 1,
            sys.groups@.dom() == set![1u32],
            sys.edge_to_group@.is_empty(),
            sys.groups@[1].edges@.len() == 0,
            sys.next_id == 2,
    {
        let mut sys = LayerSystem {
            layers: Vec::new(),
            groups: HashMap::new(),
            edge_to_group: HashMap::new(),
            next_id: 0,
        };
        let name = String::from_str("Layer 1");
        sys.create_layer(name);
        assert forall|k: LayerId| sys.groups@.dom().contains(k) <==> k == 1 by {
            if k != 1 {
                assert(sys.groups@.remove(1).contains_key(k) == sys.groups@.contains_key(k));
            }
        }
        assert(sys.groups@.dom() =~= set![1u32]);
        proof {
            if sys.groups@[1].edges@.len() > 0 {
                assert(sys.groups@[1].edges@.contains(sys.groups@[1].edges@[0]));
            }
        }
        sys
    }

    fn next_id(&mut self) -> (id: LayerId)
        requires
            old(self).next_id < u32::MAX,
        ensures
            id == old(self).next_id,
            final(self).next_id == old(self).next_id + 1,
            final(self).layers == old(self).layers,
            final(self).groups == old(self).groups,
            final(self).edge_to_group == old(self).edge_to_group,
    {
        let id = self.next_id;
        self.next_id = self.next_id + 1;
        id
    }

    /// Create a new layer with a root group; returns the layer ID.
    pub fn create_layer(&mut self, name: String) -> (layer_id: LayerId)
        requires
            old(self).wf(),
            old(self).next_id < u32::MAX - 1,
        ensures
            final(self).wf(),
            layer_created(old(self), final(self), name@, layer_id),
    {
        let layer_id = self.next_id();
        let root_group_id = self.next_id();
        let mut root_name = name.clone();
        root_name.append(" (root)");
        let root_group = Group {
            id: root_group_id,
            name: root_name,
            parent: None,
            children: Vec::new(),
            edges: Vec::new(),
            visible: true,
            locked: false,
        };
        let z = self.layers.len() as i32;
        let layer = Layer {
            id: layer_id,
            name,
            z_index: z,
            visible: true,
            locked: false,
            root_group: root_group_id,
        };
        self.groups.insert(root_group_id, root_group);
        self.layers.push(layer);
        proof {
            assert(self.layers@.drop_last() =~= old(self).layers@);
            assert(self.groups@.remove(root_group_id) =~= old(self).groups@);
        }
        layer_id
    }

    /// Position of the layer with the given ID.
    fn find_layer(&self, id: LayerId) -> (r: Option<usize>)
        ensures
            r is None <==> layer_pos(self.layers@, id) is None,
            r matches Some(i) ==> layer_pos(self.layers@, id) == Some(i as int),
            r matches Some(i) ==> i < self.layers@.len() && self.layers@[i as int].id == id,
    {
        let mut i: usize = 0;
        while i < self.layers.len()
            invariant
                i <= self.layers@.len(),
                layer_pos(self.layers@.take(i as int), id) is None,
            decreases self.layers@.len() - i,
        {
            proof {
                lemma_layer_pos_prefix(self.layers@, i as int + 1, id);
            }
            if self.layers[i].id == id {
                assert(self.layers@.take(i + 1).drop_last() =~= self.layers@.take(i as int));
                proof {
                    lemma_layer_pos_extends(self.layers@, i as int + 1, id);
                }
                return Some(i);
            }
            assert(self.layers@.take(i + 1).drop_last() =~= self.layers@.take(i as int));
            i = i + 1;
        }
        assert(self.layers@.take(i as int) =~= self.layers@);
        None
    }

    /// Get a layer by ID.
    pub fn get_layer(&self, id: LayerId) -> (r: Option<&Layer>)
        ensures
            r == (match layer_pos(self.layers@, id) {
                Some(i) => Some(&self.layers@[i]),
                None => None,
            }),
    {
        proof {
            lemma_layer_pos_bounds(self.layers@, id);
        }
        match self.find_layer(id) {
            Some(i) => Some(&self.layers[i]),
            None => None,
        }
    }

    /// Get the default layer's root group ID (for assigning new edges).
    pub fn default_group(&self) -> (r: Option<LayerId>)
        ensures
            r == (if self.layers@.len() > 0 {
                Some(self.layers@[0].root_group)
            } else {
                None
            }),
    {
        if self.layers.len() > 0 {
            Some(self.layers[0].root_group)
        } else {
            None
        }
    }

    /// Get a group by ID.
    pub fn get_group(&self, id: LayerId) -> (r: Option<&Group>)
        ensures
            r == (if self.groups@.contains_key(id) {
                Some(&self.groups@[id])
            } else {
                None
            }),
    {
        self.groups.get(&id)
    }

    /// Get the group containing an edge.
    pub fn get_edge_group(&self, edge_id: u32) -> (r: Option<LayerId>)
        ensures
            r == (if self.edge_to_group@.contains_key(edge_id) {
                Some(self.edge_to_group@[edge_id])
            } else {
                None
            }),
    {
        match self.edge_to_group.get(&edge_id) {
            Some(g) => Some(*g),
            None => None,
        }
    }
}

// ---------------------------------------------------------------------------
// Attribute setters and group creation
// ---------------------------------------------------------------------------
/// Two layer systems with the same structure: same group ids, parents,
/// children and edges, same layer ids and roots, same edge map and counter.
pub open spec fn same_structure(a: &LayerSystem, b: &LayerSystem) -> bool {
    &&& a.groups@.dom() == b.groups@.dom()
    &&& forall|k: LayerId| #[trigger]
        a.groups@.contains_key(k) ==> a.groups@[k].id == b.groups@[k].id && a.groups@[k].parent
            == b.groups@[k].parent && a.groups@[k].children@ == b.groups@[k].children@
            && a.groups@[k].edges@ == b.groups@[k].edges@
    &&& a.layers@.len() == b.layers@.len()
    &&& forall|i: int|
        0 <= i < a.layers@.len() ==> #[trigger] a.layers@[i].id == b.layers@[i].id
            && a.layers@[i].root_group == b.layers@[i].root_group
    &&& a.edge_to_group@ == b.edge_to_group@
    &&& a.next_id == b.next_id
}

proof fn lemma_same_structure_wf(a: &LayerSystem, b: &LayerSystem)
    requires
        a.wf(),
        same_structure(a, b),
    ensures
        b.wf(),
{
    let g = b.groups@;
    assert forall|k: LayerId| #[trigger] g.contains_key(k) implies match g[k].parent {
        Some(p) => p < k && g.contains_key(p) && g[p].children@.contains(k),
        None => true,
    } by {
        assert(a.groups@.contains_key(k));
    }
    assert forall|k: LayerId, c: LayerId|
        g.contains_key(k) && #[trigger] g[k].children@.contains(c) implies g.contains_key(c)
        && g[c].parent == Some(k) by {
        assert(a.groups@.contains_key(k));
        assert(a.groups@[k].children@.contains(c));
    }
    assert forall|k: LayerId, e: u32|
        g.contains_key(k) && #[trigger] g[k].edges@.contains(e) implies b.edge_to_group@.contains_key(e)
        && b.edge_to_group@[e] == k by {
        assert(a.groups@.contains_key(k));
        assert(a.groups@[k].edges@.contains(e));
    }
    assert forall|e: u32| #[trigger]
        b.edge_to_group@.contains_key(e) implies g.contains_key(b.edge_to_group@[e])
        && g[b.edge_to_group@[e]].edges@.contains(e) by {
        assert(a.edge_to_group@.contains_key(e));
    }
    assert forall|i: int, j: int|
        0 <= i < j < b.layers@.len() implies #[trigger] b.layers@[i].id != #[trigger] b.layers@[j].id
        && b.layers@[i].root_group != b.layers@[j].root_group by {
        assert(a.layers@[i].id == b.layers@[i].id);
        assert(a.layers@[j].id == b.layers@[j].id);
    }
    assert forall|i: int|
        0 <= i < b.layers@.len() implies #[trigger] b.layers@[i].id < b.next_id && g.contains_key(
        b.layers@[i].root_group,
    ) && g[b.layers@[i].root_group].parent is None by {
        assert(a.layers@[i].id == b.layers@[i].id);
    }
}

impl LayerSystem {
    /// Set layer visibility; false when no layer has this ID.
    pub fn set_layer_visibility(&mut self, id: LayerId, visible: bool) -> (found: bool)
        requires
            old(self).wf(),
        ensures
            final(self).wf(),
            found == (layer_pos(old(self).layers@, id) is Some),
            found ==> final(self).layers@ == old(self).layers@.update(
                layer_pos(old(self).layers@, id)->0,
                Layer { visible, ..old(self).layers@[layer_pos(old(self).layers@, id)->0] },
            ),
            !found ==> final(self).layers@ == old(self).layers@,
            final(self).groups@ == old(self).groups@,
            final(self).edge_to_group@ == old(self).edge_to_group@,
            final(self).next_id == old(self).next_id,
    {
        match self.find_layer(id) {
            Some(i) => {
                let ghost before = *self;
                self.layers[i].visible = visible;
                proof {
                    assert(self.layers@ =~= before.layers@.update(
                        i as int,
                        Layer { visible, ..before.layers@[i as int] },
                    ));
                    lemma_same_structure_wf(&before, self);
                }
                true
            },
            None => false,
        }
    }

    /// Set layer z-index; false when no layer has this ID.
    pub fn set_layer_z_index(&mut self, id: LayerId, z: i32) -> (found: bool)
        requires
            old(self).wf(),
        ensures
            final(self).wf(),
            found == (layer_pos(old(self).layers@, id) is Some),
            found ==> final(self).layers@ == old(self).layers@.update(
                layer_pos(old(self).layers@, id)->0,
                Layer { z_index: z, ..old(self).layers@[layer_pos(old(self).layers@, id)->0] },
            ),
            !found ==> final(self).layers@ == old(self).layers@,
            final(self).groups@ == old(self).groups@,
            final(self).edge_to_group@ == old(self).edge_to_group@,
            final(self).next_id == old(self).next_id,
    {
        match self.find_layer(id) {
            Some(i) => {
                let ghost before = *self;
                self.layers[i].z_index = z;
                proof {
                    assert(self.layers@ =~= before.layers@.update(
                        i as int,
                        Layer { z_index: z, ..before.layers@[i as int] },
                    ));
                    lemma_same_structure_wf(&before, self);
                }
                true
            },
            None => false,
        }
    }

    /// Rename a layer; false when no layer has this ID.
    pub fn rename_layer(&mut self, id: LayerId, name: String) -> (found: bool)
        requires
            old(self).wf(),
        ensures
            final(self).wf(),
            found == (layer_pos(old(self).layers@, id) is Some),
            found ==> final(self).layers@ == old(self).layers@.update(
                layer_pos(old(self).layers@, id)->0,
                Layer { name, ..old(self).layers@[layer_pos(old(self).layers@, id)->0] },
            ),
            !found ==> final(self).layers@ == old(self).layers@,
            final(self).groups@ == old(self).groups@,
            final(self).edge_to_group@ == old(self).edge_to_group@,
            final(self).next_id == old(self).next_id,
    {
        match self.find_layer(id) {
            Some(i) => {
                let ghost before = *self;
                self.layers[i].name = name;
                proof {
                    assert(self.layers@ =~= before.layers@.update(
                        i as int,
                        Layer { name, ..before.layers@[i as int] },
                    ));
                    lemma_same_structure_wf(&before, self);
                }
                true
            },
            None => false,
        }
    }

    /// Set group visibility; false when no group has this ID.
    pub fn set_group_visibility(&mut self, id: LayerId, visible: bool) -> (found: bool)
        requires
            old(self).wf(),
        ensures
            final(self).wf(),
            found == old(self).groups@.contains_key(id),
            found ==> final(self).groups@ == old(self).groups@.insert(
                id,
                Group { visible, ..old(self).groups@[id] },
            ),
            !found ==> final(self).groups@ == old(self).groups@,
            final(self).layers@ == old(self).layers@,
            final(self).edge_to_group@ == old(self).edge_to_group@,
            final(self).next_id == old(self).next_id,
    {
        let ghost before = *self;
        match self.groups.remove(&id) {
            Some(mut g) => {
                g.visible = visible;
                self.groups.insert(id, g);
                proof {
                    assert(self.groups@ =~= before.groups@.insert(
                        id,
                        Group { visible, ..before.groups@[id] },
                    ));
                    lemma_same_structure_wf(&before, self);
                }
                true
            },
            None => false,
        }
    }

    /// Rename a group; false when no group has this ID.
    pub fn rename_group(&mut self, id: LayerId, name: String) -> (found: bool)
        requires
            old(self).wf(),
        ensures
            final(self).wf(),
            found == old(self).groups@.contains_key(id),
            found ==> final(self).groups@ == old(self).groups@.insert(
                id,
                Group { name, ..old(self).groups@[id] },
            ),
            !found ==> final(self).groups@ == old(self).groups@,
            final(self).layers@ == old(self).layers@,
            final(self).edge_to_group@ == old(self).edge_to_group@,
            final(self).next_id == old(self).next_id,
    {
        let ghost before = *self;
        match self.groups.remove(&id) {
            Some(mut g) => {
                g.name = name;
                self.groups.insert(id, g);
                proof {
                    assert(self.groups@ =~= before.groups@.insert(
                        id,
                        Group { name, ..before.groups@[id] },
                    ));
                    lemma_same_structure_wf(&before, self);
                }
                true
            },
            None => false,
        }
    }
}

// ---------------------------------------------------------------------------
// Edge membership
// ---------------------------------------------------------------------------
/// Group `b` is group `a` with other edges and every other field kept.
pub open spec fn same_but_edges(a: Group, b: Group) -> bool {
    &&& a.id == b.id
    &&& a.name == b.name
    &&& a.parent == b.parent
    &&& a.children@ == b.children@
    &&& a.visible == b.visible
    &&& a.locked == b.locked
}

/// `b` is `a` after edge `e` was put into group `g`: the edge leaves the
/// group it was in, then joins `g` if `g` exists (and stays without a group
/// otherwise).
pub open spec fn edge_assigned(a: &LayerSystem, b: &LayerSystem, e: u32, g: LayerId) -> bool {
    let added = a.groups@.contains_key(g);
    &&& b.edge_to_group@ == (if added {
        a.edge_to_group@.insert(e, g)
    } else {
        a.edge_to_group@.remove(e)
    })
    &&& b.groups@.dom() == a.groups@.dom()
    &&& forall|k: LayerId| #[trigger]
        a.groups@.contains_key(k) ==> same_but_edges(a.groups@[k], b.groups@[k]) && b.groups@[k].edges@
            == (if added && k == g {
            without(a.groups@[k].edges@, e).push(e)
        } else {
            without(a.groups@[k].edges@, e)
        })
    &&& b.layers@ == a.layers@
    &&& b.next_id == a.next_id
}

/// `b` is `a` after edge `e` left its group.
pub open spec fn edge_unassigned(a: &LayerSystem, b: &LayerSystem, e: u32) -> bool {
    &&& b.edge_to_group@ == a.edge_to_group@.remove(e)
    &&& b.groups@.dom() == a.groups@.dom()
    &&& forall|k: LayerId| #[trigger]
        a.groups@.contains_key(k) ==> same_but_edges(a.groups@[k], b.groups@[k]) && b.groups@[k].edges@
            == without(a.groups@[k].edges@, e)
    &&& b.layers@ == a.layers@
    &&& b.next_id == a.next_id
}

impl LayerSystem {
    /// Add an edge to a group. The edge first leaves the group it was in;
    /// when no group has ID `group_id` the edge is left without a group and
    /// the result is false.
    pub fn add_edge_to_group(&mut self, edge_id: u32, group_id: LayerId) -> (added: bool)
        requires
            old(self).wf(),
        ensures
            final(self).wf(),
            added == old(self).groups@.contains_key(group_id),
            edge_assigned(old(self), final(self), edge_id, group_id),
    {
        let ghost before = *self;
        match self.edge_to_group.remove(&edge_id) {
            Some(old_gid) => {
                match self.groups.remove(&old_gid) {
                    Some(mut og) => {
                        og.edges = vec_without(&og.edges, edge_id);
                        self.groups.insert(old_gid, og);
                    },
                    None => {},
                }
            },
            None => {},
        }
        let ghost mid = *self;
        proof {
            assert forall|k: LayerId| #[trigger] before.groups@.contains_key(k) implies mid.groups@.contains_key(k)
                && same_but_edges(before.groups@[k], mid.groups@[k]) && mid.groups@[k].edges@
                == without(before.groups@[k].edges@, edge_id) by {
                if !before.edge_to_group@.contains_key(edge_id) || before.edge_to_group@[edge_id] != k {
                    assert(!before.groups@[k].edges@.contains(edge_id));
                    lemma_without_absent(before.groups@[k].edges@, edge_id);
                }
            }
            assert(mid.groups@.dom() =~= before.groups@.dom());
        }
        let added = match self.groups.remove(&group_id) {
            Some(mut g) => {
                g.edges.push(edge_id);
                self.groups.insert(group_id, g);
                self.edge_to_group.insert(edge_id, group_id);
                true
            },
            None => false,
        };
        proof {
            assert(self.groups@.dom() =~= before.groups@.dom());
            assert forall|k: LayerId| #[trigger] before.groups@.contains_key(k) implies same_but_edges(
                before.groups@[k],
                self.groups@[k],
            ) && self.groups@[k].edges@ == (if added && k == group_id {
                without(before.groups@[k].edges@, edge_id).push(edge_id)
            } else {
                without(before.groups@[k].edges@, edge_id)
            }) by {}
            if added {
                assert(self.edge_to_group@ =~= before.edge_to_group@.insert(edge_id, group_id));
            } else {
                assert(self.edge_to_group@ =~= before.edge_to_group@.remove(edge_id));
            }
            lemma_move_edge_wf(&before, self, edge_id, group_id, added);
        }
        added
    }

    /// Remove an edge from its group, if it is in one.
    pub fn remove_edge(&mut self, edge_id: u32)
        requires
            old(self).wf(),
        ensures
            final(self).wf(),
            edge_unassigned(old(self), final(self), edge_id),
            !old(self).edge_to_group@.contains_key(edge_id) ==> final(self).groups == old(self).groups,
    {
        let ghost before = *self;
        match self.edge_to_group.remove(&edge_id) {
            Some(old_gid) => {
                match self.groups.remove(&old_gid) {
                    Some(mut og) => {
                        og.edges = vec_without(&og.edges, edge_id);
                        self.groups.insert(old_gid, og);
                    },
                    None => {},
                }
            },
            None => {},
        }
        proof {
            assert forall|k: LayerId| #[trigger] before.groups@.contains_key(k) implies self.groups@.contains_key(k)
                && same_but_edges(before.groups@[k], self.groups@[k]) && self.groups@[k].edges@
                == without(before.groups@[k].edges@, edge_id) by {
                if !before.edge_to_group@.contains_key(edge_id) || before.edge_to_group@[edge_id] != k {
                    assert(!before.groups@[k].edges@.contains(edge_id));
                    lemma_without_absent(before.groups@[k].edges@, edge_id);
                }
            }
            assert(self.groups@.dom() =~= before.groups@.dom());
            assert(self.edge_to_group@ =~= before.edge_to_group@.remove(edge_id));
            lemma_move_edge_wf(&before, self, edge_id, 0, false);
        }
    }
}

/// Moving an edge to a group (or out of every group) keeps the forest well formed.
proof fn lemma_move_edge_wf(a: &LayerSystem, b: &LayerSystem, e: u32, g: LayerId, added: bool)
    requires
        a.wf(),
        added ==> a.groups@.contains_key(g),
        b.edge_to_group@ == (if added {
            a.edge_to_group@.insert(e, g)
        } else {
            a.edge_to_group@.remove(e)
        }),
        b.groups@.dom() == a.groups@.dom(),
        forall|k: LayerId| #[trigger]
            a.groups@.contains_key(k) ==> same_but_edges(a.groups@[k], b.groups@[k])
                && b.groups@[k].edges@ == (if added && k == g {
                without(a.groups@[k].edges@, e).push(e)
            } else {
                without(a.groups@[k].edges@, e)
            }),
        b.layers@ == a.layers@,
        b.next_id == a.next_id,
    ensures
        b.wf(),
{
    let gb = b.groups@;
    let ga = a.groups@;
    assert forall|k: LayerId| #[trigger] gb.contains_key(k) implies gb[k].id == k && k < b.next_id by {
        assert(ga.contains_key(k));
    }
    assert forall|k: LayerId| #[trigger] gb.contains_key(k) implies match gb[k].parent {
        Some(p) => p < k && gb.contains_key(p) && gb[p].children@.contains(k),
        None => true,
    } by {
        assert(ga.contains_key(k));
        if let Some(p) = ga[k].parent {
            assert(ga.contains_key(p));
        }
    }
    assert forall|k: LayerId, c: LayerId|
        gb.contains_key(k) && #[trigger] gb[k].children@.contains(c) implies gb.contains_key(c)
        && gb[c].parent == Some(k) by {
        assert(ga.contains_key(k));
        assert(ga[k].children@.contains(c));
        assert(ga.contains_key(c));
    }
    assert forall|k: LayerId| #[trigger]
        gb.contains_key(k) implies gb[k].children@.no_duplicates() && gb[k].edges@.no_duplicates() by {
        assert(ga.contains_key(k));
        lemma_without_no_duplicates(ga[k].edges@, e);
        if added && k == g {
            lemma_without_contains(ga[k].edges@, e, e);
            lemma_push_no_duplicates(without(ga[k].edges@, e), e);
        }
    }
    assert forall|k: LayerId, e2: u32|
        gb.contains_key(k) && #[trigger] gb[k].edges@.contains(e2) implies b.edge_to_group@.contains_key(e2)
        && b.edge_to_group@[e2] == k by {
        assert(ga.contains_key(k));
        lemma_without_contains(ga[k].edges@, e, e2);
        if added && k == g {
            lemma_push_contains(without(ga[k].edges@, e), e, e2);
        }
        if e2 != e {
            assert(ga[k].edges@.contains(e2));
        }
    }
    assert forall|e2: u32| #[trigger]
        b.edge_to_group@.contains_key(e2) implies gb.contains_key(b.edge_to_group@[e2])
        && gb[b.edge_to_group@[e2]].edges@.contains(e2) by {
        if e2 == e {
            lemma_push_contains(without(ga[g].edges@, e), e, e2);
        } else {
            let k = a.edge_to_group@[e2];
            assert(ga.contains_key(k));
            lemma_without_contains(ga[k].edges@, e, e2);
            if added && k == g {
                lemma_push_contains(without(ga[k].edges@, e), e, e2);
            }
        }
    }
    assert forall|i: int|
        0 <= i < b.layers@.len() implies #[trigger] b.layers@[i].id < b.next_id && gb.contains_key(
        b.layers@[i].root_group,
    ) && gb[b.layers@[i].root_group].parent is None by {
        assert(a.layers@[i].id < a.next_id);
        assert(ga.contains_key(a.layers@[i].root_group));
    }
}

// ---------------------------------------------------------------------------
// Group creation and the chain above a group
// ---------------------------------------------------------------------------
/// `b` is `a` after creating a group named `name` under `parent_id`, with
/// result `r`.
pub open spec fn group_created(a: &LayerSystem, b: &LayerSystem, name: Seq<char>, parent_id: LayerId, r: Option<LayerId>) -> bool {
    &&& (r is None <==> !a.groups@.contains_key(parent_id))
    &&& (r is None ==> b.groups@ == a.groups@ && b.next_id == a.next_id)
    &&& (r matches Some(gid) ==> {
        &&& gid == a.next_id
        &&& b.next_id == a.next_id + 1
        &&& b.groups@.dom() == a.groups@.dom().insert(gid)
        &&& b.groups@[gid].id == gid
        &&& b.groups@[gid].name@ == name
        &&& b.groups@[gid].parent == Some(parent_id)
        &&& b.groups@[gid].children@.len() == 0
        &&& b.groups@[gid].edges@.len() == 0
        &&& b.groups@[gid].visible
        &&& !b.groups@[gid].locked
        &&& b.groups@[parent_id].children@ == a.groups@[parent_id].children@.push(gid)
        &&& b.groups@[parent_id].edges@ == a.groups@[parent_id].edges@
        &&& b.groups@[parent_id].id == a.groups@[parent_id].id
        &&& b.groups@[parent_id].name == a.groups@[parent_id].name
        &&& b.groups@[parent_id].parent == a.groups@[parent_id].parent
        &&& b.groups@[parent_id].visible == a.groups@[parent_id].visible
        &&& b.groups@[parent_id].locked == a.groups@[parent_id].locked
        &&& forall|k: LayerId|
            k != gid && k != parent_id && #[trigger] a.groups@.contains_key(k)
                ==> b.groups@[k] == a.groups@[k]
    })
    &&& (b.layers@ == a.layers@)
    &&& (b.edge_to_group@ == a.edge_to_group@)
}

impl LayerSystem {
    /// Create a group within a parent group; None when the parent does not exist.
    pub fn create_group(&mut self, name: String, parent_id: LayerId) -> (r: Option<LayerId>)
        requires
            old(self).wf(),
            old(self).next_id < u32::MAX,
        ensures
            final(self).wf(),
            group_created(old(self), final(self), name@, parent_id, r),
    {
        if !self.groups.contains_key(&parent_id) {
            return None;
        }
        let ghost before = *self;
        let group_id = self.next_id();
        let group = Group {
            id: group_id,
            name,
            parent: Some(parent_id),
            children: Vec::new(),
            edges: Vec::new(),
            visible: true,
            locked: false,
        };
        self.groups.insert(group_id, group);
        match self.groups.remove(&parent_id) {
            Some(mut parent) => {
                parent.children.push(group_id);
                self.groups.insert(parent_id, parent);
            },
            None => {},
        }
        proof {
            let ga = before.groups@;
            let gb = self.groups@;
            assert(gb.dom() =~= ga.dom().insert(group_id));
            assert(!ga.contains_key(group_id));
            assert forall|k: LayerId| #[trigger] gb.contains_key(k) implies gb[k].id == k && k < self.next_id by {
                if k != group_id {
                    assert(ga.contains_key(k));
                }
            }
            assert forall|k: LayerId| #[trigger] gb.contains_key(k) implies match gb[k].parent {
                Some(p) => p < k && gb.contains_key(p) && gb[p].children@.contains(k),
                None => true,
            } by {
                if k == group_id {
                    lemma_push_contains(ga[parent_id].children@, group_id, k);
                } else {
                    assert(ga.contains_key(k));
                    if let Some(p) = ga[k].parent {
                        if p == parent_id {
                            lemma_push_contains(ga[parent_id].children@, group_id, k);
                        }
                    }
                }
            }
            assert forall|k: LayerId, c: LayerId|
                gb.contains_key(k) && #[trigger] gb[k].children@.contains(c) implies gb.contains_key(c)
                && gb[c].parent == Some(k) by {
                if k == parent_id {
                    lemma_push_contains(ga[parent_id].children@, group_id, c);
                    if c != group_id {
                        assert(ga[k].children@.contains(c));
                    }
                } else if k != group_id {
                    assert(ga[k].children@.contains(c));
                    assert(ga.contains_key(c));
                }
            }
            assert forall|k: LayerId| #[trigger]
                gb.contains_key(k) implies gb[k].children@.no_duplicates() && gb[k].edges@.no_duplicates() by {
                if k == parent_id {
                    assert(!ga[parent_id].children@.contains(group_id));
                    lemma_push_no_duplicates(ga[parent_id].children@, group_id);
                }
            }
            assert forall|k: LayerId, e: u32|
                gb.contains_key(k) && #[trigger] gb[k].edges@.contains(e) implies self.edge_to_group@.contains_key(e)
                && self.edge_to_group@[e] == k by {
                if k != group_id {
                    assert(ga[k].edges@.contains(e));
                }
            }
            assert forall|e: u32| #[trigger]
                self.edge_to_group@.contains_key(e) implies gb.contains_key(self.edge_to_group@[e])
                && gb[self.edge_to_group@[e]].edges@.contains(e) by {
                assert(ga.contains_key(before.edge_to_group@[e]));
            }
            assert forall|i: int|
                0 <= i < self.layers@.len() implies #[trigger] self.layers@[i].id < self.next_id && gb.contains_key(
                self.layers@[i].root_group,
            ) && gb[self.layers@[i].root_group].parent is None by {
                assert(before.layers@[i].id < before.next_id);
                assert(ga.contains_key(before.layers@[i].root_group));
            }
        }
        Some(group_id)
    }

    /// Find the layer whose root group is `root`.
    fn find_layer_by_root(&self, root: LayerId) -> (r: Option<&Layer>)
        ensures
            r == (match layer_of_root(self.layers@, root) {
                Some(l) => Some(&l),
                None => None,
            }),
    {
        let mut i: usize = 0;
        assert(self.layers@.skip(0) =~= self.layers@);
        while i < self.layers.len()
            invariant
                i <= self.layers@.len(),
                layer_of_root(self.layers@, root) == layer_of_root(self.layers@.skip(i as int), root),
            decreases self.layers@.len() - i,
        {
            if self.layers[i].root_group == root {
                return Some(&self.layers[i]);
            }
            assert(self.layers@.skip(i as int).drop_first() =~= self.layers@.skip(i + 1));
            i = i + 1;
        }
        None
    }

    /// Find which layer a group belongs to.
    pub fn find_layer_for_group(&self, group_id: LayerId) -> (r: Option<LayerId>)
        requires
            self.wf(),
        ensures
            r == chain_layer(self.groups@, self.layers@, group_id),
    {
        let mut current = group_id;
        loop
            invariant
                self.wf(),
                chain_layer(self.groups@, self.layers@, group_id) == chain_layer(
                    self.groups@,
                    self.layers@,
                    current,
                ),
            decreases current,
        {
            let group = match self.groups.get(&current) {
                Some(g) => g,
                None => return None,
            };
            match group.parent {
                Some(parent) => {
                    assert(self.groups@.contains_key(current));
                    current = parent;
                },
                None => {
                    return match self.find_layer_by_root(current) {
                        Some(l) => Some(l.id),
                        None => None,
                    };
                },
            }
        }
    }

    /// Get the layer containing an edge.
    pub fn get_edge_layer(&self, edge_id: u32) -> (r: Option<LayerId>)
        requires
            self.wf(),
        ensures
            r == self.edge_layer(edge_id),
    {
        match self.edge_to_group.get(&edge_id) {
            Some(g) => self.find_layer_for_group(*g),
            None => None,
        }
    }

    /// Check if an edge is visible, considering the visibility of every group
    /// on the way up and of the layer. Edges without a group are visible.
    pub fn is_edge_visible(&self, edge_id: u32) -> (r: bool)
        requires
            self.wf(),
        ensures
            r == self.edge_visible(edge_id),
    {
        let group_id = match self.edge_to_group.get(&edge_id) {
            Some(gid) => *gid,
            None => return true,
        };
        let mut current = group_id;
        loop
            invariant
                self.wf(),
                self.edge_to_group@.contains_key(edge_id),
                self.edge_to_group@[edge_id] == group_id,
                chain_visible(self.groups@, self.layers@, group_id) == chain_visible(
                    self.groups@,
                    self.layers@,
                    current,
                ),
            decreases current,
        {
            let group = match self.groups.get(&current) {
                Some(g) => g,
                None => return true,
            };
            if !group.visible {
                return false;
            }
            match group.parent {
                Some(parent) => {
                    assert(self.groups@.contains_key(current));
                    current = parent;
                },
                None => {
                    return match self.find_layer_by_root(current) {
                        Some(layer) => layer.visible,
                        None => true,
                    };
                },
            }
        }
    }
}

// ---------------------------------------------------------------------------
// Group removal
// ---------------------------------------------------------------------------
/// Group `b` keeps every field of `a` but its children and edges.
pub open spec fn same_but_contents(a: Group, b: Group) -> bool {
    &&& a.id == b.id
    &&& a.name == b.name
    &&& a.parent == b.parent
    &&& a.visible == b.visible
    &&& a.locked == b.locked
}

/// The state after removing group `id`, whose parent is `p`, from `a`: its
/// edges and children move to `p`, and `p` no longer lists it as a child.
pub open spec fn group_removed(a: &LayerSystem, b: &LayerSystem, id: LayerId, p: LayerId) -> bool {
    let ga = a.groups@;
    let gb = b.groups@;
    let g = ga[id];
    &&& gb.dom() == ga.dom().remove(id)
    &&& gb[p].children@ == without(ga[p].children@, id) + g.children@
    &&& gb[p].edges@ == ga[p].edges@ + g.edges@
    &&& same_but_contents(ga[p], gb[p])
    &&& forall|c: LayerId| #[trigger]
        g.children@.contains(c) ==> gb[c] == Group { parent: Some(p), ..ga[c] }
    &&& forall|k: LayerId| #[trigger]
        gb.contains_key(k) && k != p && !g.children@.contains(k) ==> gb[k] == ga[k]
    &&& b.edge_to_group@.dom() == a.edge_to_group@.dom()
    &&& forall|e: u32| #[trigger]
        b.edge_to_group@.contains_key(e) ==> b.edge_to_group@[e] == (if g.edges@.contains(e) {
            p
        } else {
            a.edge_to_group@[e]
        })
    &&& b.layers@ == a.layers@
    &&& b.next_id == a.next_id
}

proof fn lemma_concat_contains(s: Seq<u32>, t: Seq<u32>, y: u32)
    ensures
        (s + t).contains(y) <==> s.contains(y) || t.contains(y),
{
    if (s + t).contains(y) {
        let k = choose|k: int| 0 <= k < (s + t).len() && (s + t)[k] == y;
        if k < s.len() {
            assert(s[k] == y);
        } else {
            assert(t[k - s.len()] == y);
        }
    }
    if s.contains(y) {
        let k = choose|k: int| 0 <= k < s.len() && s[k] == y;
        assert((s + t)[k] == y);
    }
    if t.contains(y) {
        let k = choose|k: int| 0 <= k < t.len() && t[k] == y;
        assert((s + t)[s.len() + k] == y);
    }
}

proof fn lemma_concat_no_duplicates(s: Seq<u32>, t: Seq<u32>)
    requires
        s.no_duplicates(),
        t.no_duplicates(),
        forall|y: u32| s.contains(y) ==> !t.contains(y),
    ensures
        (s + t).no_duplicates(),
{
    assert forall|i: int, j: int| 0 <= i < (s + t).len() && 0 <= j < (s + t).len() && i != j implies (s
        + t)[i] != (s + t)[j] by {
        if i < s.len() && j >= s.len() {
            assert(s.contains(s[i]));
            assert(t.contains(t[j - s.len()]));
        } else if j < s.len() && i >= s.len() {
            assert(s.contains(s[j]));
            assert(t.contains(t[i - s.len()]));
        }
    }
}

impl LayerSystem {
    /// Remove a group; its edges and children move to its parent. Root groups
    /// (those without a parent) and unknown IDs are refused with false.
    pub fn remove_group(&mut self, id: LayerId) -> (removed: bool)
        requires
            old(self).wf(),
        ensures
            final(self).wf(),
            removed == (old(self).groups@.contains_key(id) && old(self).groups@[id].parent is Some),
            !removed ==> final(self).groups@ == old(self).groups@ && final(self).edge_to_group@
                == old(self).edge_to_group@ && final(self).layers@ == old(self).layers@
                && final(self).next_id == old(self).next_id,
            removed ==> group_removed(old(self), final(self), id, old(self).groups@[id].parent->0),
    {
        let ghost before = *self;
        let group = match self.groups.remove(&id) {
            Some(g) => g,
            None => {
                assert(self.groups@ =~= before.groups@);
                proof {
                    lemma_same_structure_wf(&before, self);
                }
                return false;
            },
        };
        let parent_id = match group.parent {
            Some(p) => p,
            None => {
                self.groups.insert(id, group);
                proof {
                    assert(self.groups@ =~= before.groups@);
                    lemma_same_structure_wf(&before, self);
                }
                return false;
            },
        };
        let ghost ga = before.groups@;
        proof {
            assert(ga.contains_key(id));
            assert(group == ga[id]);
            assert(ga.contains_key(parent_id));
        }
        // Move edges and children to the parent.
        let mut parent = match self.groups.remove(&parent_id) {
            Some(p) => p,
            None => {
                assert(false);
                return false;
            },
        };
        assert(parent == ga[parent_id]);
        parent.children = vec_without(&parent.children, id);
        let mut i: usize = 0;
        while i < group.edges.len()
            invariant
                i <= group.edges@.len(),
                same_but_contents(ga[parent_id], parent),
                parent.children@ == without(ga[parent_id].children@, id),
                parent.edges@ == ga[parent_id].edges@ + group.edges@.take(i as int),
            decreases group.edges@.len() - i,
        {
            parent.edges.push(group.edges[i]);
            assert(group.edges@.take(i + 1) =~= group.edges@.take(i as int).push(group.edges@[i as int]));
            i = i + 1;
        }
        assert(group.edges@.take(i as int) =~= group.edges@);
        let mut j: usize = 0;
        while j < group.children.len()
            invariant
                j <= group.children@.len(),
                same_but_contents(ga[parent_id], parent),
                parent.edges@ == ga[parent_id].edges@ + group.edges@,
                parent.children@ == without(ga[parent_id].children@, id) + group.children@.take(j as int),
            decreases group.children@.len() - j,
        {
            parent.children.push(group.children[j]);
            assert(group.children@.take(j + 1) =~= group.children@.take(j as int).push(group.children@[j as int]));
            j = j + 1;
        }
        assert(group.children@.take(j as int) =~= group.children@);
        self.groups.insert(parent_id, parent);
        let ghost mid = self.groups@;
        proof {
            assert(mid == ga.remove(id).insert(parent_id, parent));
        }
        // Update edge-to-group mappings.
        let mut k: usize = 0;
        while k < group.edges.len()
            invariant
                k <= group.edges@.len(),
                group.edges@ == ga[id].edges@,
                before.wf(),
                ga == before.groups@,
                ga.contains_key(id),
                self.groups@ == mid,
                self.layers@ == before.layers@,
                self.next_id == before.next_id,
                self.edge_to_group@.dom() == before.edge_to_group@.dom(),
                forall|e: u32| #[trigger]
                    self.edge_to_group@.contains_key(e) ==> self.edge_to_group@[e] == (if group.edges@.take(
                        k as int,
                    ).contains(e) {
                        parent_id
                    } else {
                        before.edge_to_group@[e]
                    }),
            decreases group.edges@.len() - k,
        {
            let e = group.edges[k];
            proof {
                assert(ga[id].edges@.contains(e));
            }
            self.edge_to_group.insert(e, parent_id);
            proof {
                assert(group.edges@.take(k + 1) =~= group.edges@.take(k as int).push(e));
                assert forall|e2: u32| #[trigger] self.edge_to_group@.contains_key(e2) implies self.edge_to_group@[e2] == (
                if group.edges@.take(k + 1).contains(e2) {
                    parent_id
                } else {
                    before.edge_to_group@[e2]
                }) by {
                    lemma_push_contains(group.edges@.take(k as int), e, e2);
                }
                assert(self.edge_to_group@.dom() =~= before.edge_to_group@.dom());
            }
            k = k + 1;
        }
        assert(group.edges@.take(k as int) =~= group.edges@);
        let ghost em_after = self.edge_to_group@;
        // Reparent children.
        let mut c: usize = 0;
        while c < group.children.len()
            invariant
                c <= group.children@.len(),
                group.children@ == ga[id].children@,
                group.children@.no_duplicates(),
                before.wf(),
                ga == before.groups@,
                ga.contains_key(id),
                ga[id].parent == Some(parent_id),
                self.layers@ == before.layers@,
                self.next_id == before.next_id,
                self.groups@.dom() == mid.dom(),
                self.edge_to_group@ == em_after,
                mid.dom() == ga.dom().remove(id),
                forall|x: LayerId| #[trigger]
                    self.groups@.contains_key(x) ==> self.groups@[x] == (if group.children@.take(
                        c as int,
                    ).contains(x) {
                        Group { parent: Some(parent_id), ..mid[x] }
                    } else {
                        mid[x]
                    }),
            decreases group.children@.len() - c,
        {
            let child_id = group.children[c];
            proof {
                assert(ga[id].children@.contains(child_id));
                assert(ga.contains_key(child_id));
                assert(ga[child_id].parent == Some(id));
            }
            match self.groups.remove(&child_id) {
                Some(mut child) => {
                    child.parent = Some(parent_id);
                    self.groups.insert(child_id, child);
                },
                None => {},
            }
            proof {
                assert(group.children@.take(c + 1) =~= group.children@.take(c as int).push(child_id));
                assert(!group.children@.take(c as int).contains(child_id)) by {
                    if group.children@.take(c as int).contains(child_id) {
                        let q = choose|q: int| 0 <= q < c && group.children@.take(c as int)[q] == child_id;
                        assert(group.children@[q] == group.children@[c as int]);
                    }
                }
                assert forall|x: LayerId| #[trigger] self.groups@.contains_key(x) implies self.groups@[x] == (
                if group.children@.take(c + 1).contains(x) {
                    Group { parent: Some(parent_id), ..mid[x] }
                } else {
                    mid[x]
                }) by {
                    lemma_push_contains(group.children@.take(c as int), child_id, x);
                }
                assert(self.groups@.dom() =~= mid.dom());
            }
            c = c + 1;
        }
        assert(group.children@.take(c as int) =~= group.children@);
        proof {
            let gb = self.groups@;
            assert(gb.dom() =~= ga.dom().remove(id));
            assert(!ga[id].children@.contains(parent_id)) by {
                if ga[id].children@.contains(parent_id) {
                    assert(ga[parent_id].parent == Some(id));
                }
            }
            assert forall|cc: LayerId| #[trigger] ga[id].children@.contains(cc) implies gb[cc] == Group {
                parent: Some(parent_id),
                ..ga[cc]
            } by {
                assert(ga.contains_key(cc));
                assert(ga[cc].parent == Some(id));
            }
            assert(self.edge_to_group@.dom() =~= before.edge_to_group@.dom());
            assert(gb[parent_id].children@ == without(ga[parent_id].children@, id) + ga[id].children@);
            assert(gb[parent_id].edges@ == ga[parent_id].edges@ + ga[id].edges@);
            assert(same_but_contents(ga[parent_id], gb[parent_id]));
            assert forall|k: LayerId| #[trigger]
                gb.contains_key(k) && k != parent_id && !ga[id].children@.contains(k) implies gb[k] == ga[k] by {
            }
            assert forall|e: u32| #[trigger]
                self.edge_to_group@.contains_key(e) implies self.edge_to_group@[e] == (if ga[id].edges@.contains(e) {
                    parent_id
                } else {
                    before.edge_to_group@[e]
                }) by {
            }
            assert(group_removed(&before, self, id, parent_id));
            lemma_remove_group_wf(&before, self, id, parent_id);
        }
        true
    }
}

/// Removing a non-root group keeps the forest well formed.
proof fn lemma_remove_group_wf(a: &LayerSystem, b: &LayerSystem, id: LayerId, p: LayerId)
    requires
        a.wf(),
        a.groups@.contains_key(id),
        a.groups@[id].parent == Some(p),
        group_removed(a, b, id, p),
    ensures
        b.wf(),
{
    let ga = a.groups@;
    let gb = b.groups@;
    let g = ga[id];
    assert(ga.contains_key(p) && p < id);
    assert(!g.children@.contains(p)) by {
        if g.children@.contains(p) {
            assert(ga[p].parent == Some(id));
        }
    }
    assert(gb.contains_key(p));
    // Groups other than p and id's children keep their data.
    assert forall|k: LayerId| #[trigger] gb.contains_key(k) implies gb[k].id == k && k < b.next_id by {
        assert(ga.contains_key(k));
    }
    assert forall|k: LayerId| #[trigger] gb.contains_key(k) implies match gb[k].parent {
        Some(q) => q < k && gb.contains_key(q) && gb[q].children@.contains(k),
        None => true,
    } by {
        assert(ga.contains_key(k));
        if g.children@.contains(k) {
            assert(ga[k].parent == Some(id));
            lemma_concat_contains(without(ga[p].children@, id), g.children@, k);
        } else {
            if let Some(q) = ga[k].parent {
                assert(ga[q].children@.contains(k));
                if q == id {
                    assert(false);
                }
                assert(gb.contains_key(q));
                if q == p {
                    lemma_without_contains(ga[p].children@, id, k);
                    lemma_concat_contains(without(ga[p].children@, id), g.children@, k);
                } else if g.children@.contains(q) {
                    assert(gb[q].children == ga[q].children);
                } else {
                    assert(gb[q] == ga[q]);
                }
            }
        }
    }
    assert forall|k: LayerId, c: LayerId|
        gb.contains_key(k) && #[trigger] gb[k].children@.contains(c) implies gb.contains_key(c)
        && gb[c].parent == Some(k) by {
        assert(ga.contains_key(k));
        if k == p {
            lemma_concat_contains(without(ga[p].children@, id), g.children@, c);
            if g.children@.contains(c) {
                assert(ga.contains_key(c));
            } else {
                lemma_without_contains(ga[p].children@, id, c);
                assert(ga[p].children@.contains(c));
                assert(ga.contains_key(c) && ga[c].parent == Some(p));
                if g.children@.contains(c) {
                    assert(false);
                }
            }
        } else {
            if g.children@.contains(k) {
                assert(gb[k].children == ga[k].children);
            } else {
                assert(gb[k] == ga[k]);
            }
            assert(ga[k].children@.contains(c));
            assert(ga.contains_key(c) && ga[c].parent == Some(k));
            assert(c != id) by {
                if c == id {
                    assert(k == p);
                }
            }
            if g.children@.contains(c) {
                assert(ga[c].parent == Some(id));
            }
            if c == p {
                assert(gb[p].parent == ga[p].parent);
            } else if !g.children@.contains(c) {
                assert(gb[c] == ga[c]);
            }
        }
    }
    assert forall|k: LayerId| #[trigger]
        gb.contains_key(k) implies gb[k].children@.no_duplicates() && gb[k].edges@.no_duplicates() by {
        assert(ga.contains_key(k));
        if k == p {
            lemma_without_no_duplicates(ga[p].children@, id);
            assert forall|y: u32| without(ga[p].children@, id).contains(y) implies !g.children@.contains(y) by {
                lemma_without_contains(ga[p].children@, id, y);
                if g.children@.contains(y) {
                    assert(ga[y].parent == Some(id));
                    assert(ga[y].parent == Some(p));
                }
            }
            lemma_concat_no_duplicates(without(ga[p].children@, id), g.children@);
            assert forall|y: u32| ga[p].edges@.contains(y) implies !g.edges@.contains(y) by {
                if g.edges@.contains(y) {
                    assert(a.edge_to_group@[y] == id);
                    assert(a.edge_to_group@[y] == p);
                }
            }
            lemma_concat_no_duplicates(ga[p].edges@, g.edges@);
        } else if g.children@.contains(k) {
            assert(gb[k].children == ga[k].children);
        } else {
            assert(gb[k] == ga[k]);
        }
    }
    assert forall|k: LayerId, e: u32|
        gb.contains_key(k) && #[trigger] gb[k].edges@.contains(e) implies b.edge_to_group@.contains_key(e)
        && b.edge_to_group@[e] == k by {
        assert(ga.contains_key(k));
        if k == p {
            lemma_concat_contains(ga[p].edges@, g.edges@, e);
            if g.edges@.contains(e) {
                assert(a.edge_to_group@.contains_key(e));
            } else {
                assert(a.edge_to_group@.contains_key(e) && a.edge_to_group@[e] == p);
            }
        } else {
            if g.children@.contains(k) {
                assert(gb[k].edges == ga[k].edges);
            } else {
                assert(gb[k] == ga[k]);
            }
            assert(ga[k].edges@.contains(e));
            assert(a.edge_to_group@.contains_key(e) && a.edge_to_group@[e] == k);
            if g.edges@.contains(e) {
                assert(a.edge_to_group@[e] == id);
            }
        }
    }
    assert forall|e: u32| #[trigger]
        b.edge_to_group@.contains_key(e) implies gb.contains_key(b.edge_to_group@[e])
        && gb[b.edge_to_group@[e]].edges@.contains(e) by {
        assert(a.edge_to_group@.contains_key(e));
        lemma_concat_contains(ga[p].edges@, g.edges@, e);
        if !g.edges@.contains(e) {
            let k = a.edge_to_group@[e];
            assert(ga.contains_key(k) && ga[k].edges@.contains(e));
            if k == id {
                assert(false);
            }
            if k != p {
                if g.children@.contains(k) {
                    assert(gb[k].edges == ga[k].edges);
                } else {
                    assert(gb[k] == ga[k]);
                }
            }
        }
    }
    assert forall|i: int|
        0 <= i < b.layers@.len() implies #[trigger] b.layers@[i].id < b.next_id && gb.contains_key(
        b.layers@[i].root_group,
    ) && gb[b.layers@[i].root_group].parent is None by {
        let r = a.layers@[i].root_group;
        assert(a.layers@[i].id < a.next_id);
        assert(ga.contains_key(r) && ga[r].parent is None);
        assert(r != id);
        if g.children@.contains(r) {
            assert(ga[r].parent == Some(id));
        }
        if r != p && !g.children@.contains(r) {
            assert(gb[r] == ga[r]);
        }
    }
    assert forall|i: int, j: int|
        0 <= i < j < b.layers@.len() implies #[trigger] b.layers@[i].id != #[trigger] b.layers@[j].id
        && b.layers@[i].root_group != b.layers@[j].root_group by {
        assert(a.layers@[i].id != a.layers@[j].id);
    }
}

// ---------------------------------------------------------------------------
// Layer removal
// ---------------------------------------------------------------------------
/// Group `r` lies on the chain of groups from `g` up to its root (`g` itself included).
pub open spec fn under(gm: Map<LayerId, Group>, g: LayerId, r: LayerId) -> bool
    decreases g,
{
    gm.contains_key(g) && (g == r || match gm[g].parent {
        Some(p) => p < g && under(gm, p, r),
        None => false,
    })
}

proof fn lemma_under_parent(gm: Map<LayerId, Group>, c: LayerId, s: LayerId, r: LayerId)
    requires
        gm.contains_key(c),
        gm[c].parent == Some(s),
        s < c,
        under(gm, s, r),
    ensures
        under(gm, c, r),
{
}

/// A group strictly below `s` is below one of the children of `s`.
proof fn lemma_under_child(a: &LayerSystem, k: LayerId, s: LayerId) -> (c: LayerId)
    requires
        a.wf(),
        under(a.groups@, k, s),
        k != s,
    ensures
        a.groups@.contains_key(s),
        a.groups@[s].children@.contains(c),
        under(a.groups@, k, c),
    decreases k,
{
    let gm = a.groups@;
    let p = gm[k].parent->0;
    assert(gm.contains_key(k));
    if p == s {
        assert(gm[s].children@.contains(k));
        k
    } else {
        let c = lemma_under_child(a, p, s);
        lemma_under_parent(gm, k, p, c);
        c
    }
}

/// A group without a parent is below only itself.
proof fn lemma_under_root(gm: Map<LayerId, Group>, x: LayerId, r: LayerId)
    requires
        gm.contains_key(x),
        gm[x].parent is None,
        under(gm, x, r),
    ensures
        x == r,
{
}

impl LayerSystem {
    /// Move the contents of a removed group: list its edges in `removed`,
    /// queue its children on `stack`, and unmap its edges.
    fn take_group_contents(&mut self, group: &Group, removed: &mut Vec<u32>, stack: &mut Vec<LayerId>)
        ensures
            final(removed)@ == old(removed)@ + group.edges@,
            final(stack)@ == old(stack)@ + group.children@,
            forall|e: u32| #[trigger]
                final(self).edge_to_group@.contains_key(e) <==> old(self).edge_to_group@.contains_key(e)
                    && !group.edges@.contains(e),
            forall|e: u32| #[trigger]
                final(self).edge_to_group@.contains_key(e) ==> final(self).edge_to_group@[e]
                    == old(self).edge_to_group@[e],
            final(self).groups@ == old(self).groups@,
            final(self).layers@ == old(self).layers@,
            final(self).next_id == old(self).next_id,
    {
        let mut i: usize = 0;
        while i < group.edges.len()
            invariant
                i <= group.edges@.len(),
                removed@ == old(removed)@ + group.edges@.take(i as int),
            decreases group.edges@.len() - i,
        {
            removed.push(group.edges[i]);
            assert(group.edges@.take(i + 1) =~= group.edges@.take(i as int).push(group.edges@[i as int]));
            i = i + 1;
        }
        assert(group.edges@.take(i as int) =~= group.edges@);
        let mut j: usize = 0;
        while j < group.children.len()
            invariant
                j <= group.children@.len(),
                stack@ == old(stack)@ + group.children@.take(j as int),
            decreases group.children@.len() - j,
        {
            stack.push(group.children[j]);
            assert(group.children@.take(j + 1) =~= group.children@.take(j as int).push(group.children@[j as int]));
            j = j + 1;
        }
        assert(group.children@.take(j as int) =~= group.children@);
        let mut k: usize = 0;
        while k < group.edges.len()
            invariant
                k <= group.edges@.len(),
                self.groups@ == old(self).groups@,
                self.layers@ == old(self).layers@,
                self.next_id == old(self).next_id,
                forall|e: u32| #[trigger]
                    self.edge_to_group@.contains_key(e) <==> old(self).edge_to_group@.contains_key(e)
                        && !group.edges@.take(k as int).contains(e),
                forall|e: u32| #[trigger]
                    self.edge_to_group@.contains_key(e) ==> self.edge_to_group@[e]
                        == old(self).edge_to_group@[e],
            decreases group.edges@.len() - k,
        {
            let e = group.edges[k];
            self.edge_to_group.remove(&e);
            proof {
                assert(group.edges@.take(k + 1) =~= group.edges@.take(k as int).push(e));
                assert forall|e2: u32| #[trigger]
                    self.edge_to_group@.contains_key(e2) <==> old(self).edge_to_group@.contains_key(e2)
                        && !group.edges@.take(k + 1).contains(e2) by {
                    lemma_push_contains(group.edges@.take(k as int), e, e2);
                }
            }
            k = k + 1;
        }
        assert(group.edges@.take(k as int) =~= group.edges@);
    }

    /// Remove a layer and all its groups; returns the IDs of the edges that
    /// were in them (None when no layer has this ID). Those edges leave the
    /// edge-to-group map.
    pub fn remove_layer(&mut self, id: LayerId) -> (r: Option<Vec<u32>>)
        requires
            old(self).wf(),
        ensures
            final(self).wf(),
            r is None <==> layer_pos(old(self).layers@, id) is None,
            r is None ==> final(self).groups@ == old(self).groups@ && final(self).edge_to_group@
                == old(self).edge_to_group@ && final(self).layers@ == old(self).layers@,
            r matches Some(removed) ==> layer_removed(old(self), final(self), id, removed@),
            final(self).next_id == old(self).next_id,
    {
        let idx = match self.find_layer(id) {
            Some(i) => i,
            None => return None,
        };
        let ghost before = *self;
        let ghost ga = before.groups@;
        let ghost em0 = before.edge_to_group@;
        let layer = self.layers.remove(idx);
        let root = layer.root_group;
        proof {
            assert(ga.contains_key(root));
            assert(under(ga, root, root));
        }
        let mut removed_edges: Vec<u32> = Vec::new();
        let mut groups_to_remove: Vec<LayerId> = Vec::new();
        groups_to_remove.push(root);
        proof {
            assert(groups_to_remove@[0] == root);
            assert(self.groups@ == ga);
            assert forall|k: LayerId|
                #[trigger] self.groups@.contains_key(k) && under(ga, k, root) implies exists|i: int|
                    0 <= i < groups_to_remove@.len() && self.groups@.contains_key(
                        #[trigger] groups_to_remove@[i],
                    ) && under(ga, k, groups_to_remove@[i]) by {
                assert(self.groups@.contains_key(groups_to_remove@[0]));
            }
            assert(removed_edges@ =~= Seq::<u32>::empty());
        }
        while groups_to_remove.len() > 0
            invariant
                before.wf(),
                ga == before.groups@,
                em0 == before.edge_to_group@,
                ga.contains_key(root),
                ga[root].parent is None,
                self.layers@ == before.layers@.remove(idx as int),
                self.next_id == before.next_id,
                removal_walk(ga, root, self.groups@, groups_to_remove@),
                // Edges of removed groups are unmapped and listed exactly once.
                forall|e: u32| #[trigger]
                    self.edge_to_group@.contains_key(e) <==> em0.contains_key(e)
                        && self.groups@.contains_key(em0[e]),
                forall|e: u32| #[trigger]
                    self.edge_to_group@.contains_key(e) ==> self.edge_to_group@[e] == em0[e],
                removed_edges@.no_duplicates(),
                forall|e: u32| #[trigger]
                    removed_edges@.contains(e) <==> em0.contains_key(e) && !self.groups@.contains_key(
                        em0[e],
                    ),
            decreases self.groups@.dom().len(), groups_to_remove@.len(),
        {
            let ghost stack0 = groups_to_remove@;
            let ghost gm0 = self.groups@;
            let gid = groups_to_remove.pop().unwrap();
            proof {
                assert(groups_to_remove@ == stack0.drop_last());
                assert(gid == stack0.last());
                assert(under(ga, stack0[stack0.len() - 1], root));
            }
            match self.groups.remove(&gid) {
                Some(group) => {
                    proof {
                        assert(gm0.contains_key(gid));
                        assert(group == ga[gid]);
                        assert(gm0.dom().len() > 0);
                        assert(self.groups@ == gm0.remove(gid));
                    }
                    let ghost out0 = removed_edges@;
                    self.take_group_contents(&group, &mut removed_edges, &mut groups_to_remove);
                    proof {
                        lemma_remove_layer_step(&before, root, gid, stack0, gm0, self.groups@, groups_to_remove@);
                        assert forall|e: u32| #[trigger]
                            removed_edges@.contains(e) <==> em0.contains_key(e)
                                && !self.groups@.contains_key(em0[e]) by {
                            lemma_concat_contains(out0, group.edges@, e);
                            if em0.contains_key(e) && em0[e] == gid {
                                assert(ga[gid].edges@.contains(e));
                            }
                            if group.edges@.contains(e) {
                                assert(em0.contains_key(e) && em0[e] == gid);
                            }
                        }
                        assert forall|y: u32| out0.contains(y) implies !group.edges@.contains(y) by {
                            if group.edges@.contains(y) {
                                assert(em0[y] == gid);
                            }
                        }
                        lemma_concat_no_duplicates(out0, group.edges@);
                        assert forall|e: u32| #[trigger]
                            self.edge_to_group@.contains_key(e) <==> em0.contains_key(e)
                                && self.groups@.contains_key(em0[e]) by {
                            if em0.contains_key(e) && em0[e] == gid {
                                assert(ga[gid].edges@.contains(e));
                            }
                            if group.edges@.contains(e) {
                                assert(em0.contains_key(e) && em0[e] == gid);
                            }
                        }
                    }
                },
                None => {
                    proof {
                        assert(self.groups@ =~= gm0);
                        assert forall|kk: LayerId|
                            #[trigger] self.groups@.contains_key(kk) && under(ga, kk, root) implies exists|i: int|
                                0 <= i < groups_to_remove@.len() && self.groups@.contains_key(
                                    #[trigger] groups_to_remove@[i],
                                ) && under(ga, kk, groups_to_remove@[i]) by {
                            let i = choose|i: int|
                                0 <= i < stack0.len() && gm0.contains_key(#[trigger] stack0[i]) && under(
                                    ga,
                                    kk,
                                    stack0[i],
                                );
                            assert(i != stack0.len() - 1);
                            assert(groups_to_remove@[i] == stack0[i]);
                        }
                    }
                },
            }
        }
        proof {
            lemma_remove_layer_wf(&before, self, idx as int, root);
        }
        Some(removed_edges)
    }
}

/// `b` is `a` after removing layer `id` (which exists) together with every
/// group below its root; `removed` lists, once each, the edges that were in
/// those groups, and they leave the edge map.
pub open spec fn layer_removed(a: &LayerSystem, b: &LayerSystem, id: LayerId, removed: Seq<u32>) -> bool {
    let idx = layer_pos(a.layers@, id)->0;
    let root = a.layers@[idx].root_group;
    let ga = a.groups@;
    let em = a.edge_to_group@;
    &&& layer_pos(a.layers@, id) is Some
    &&& b.layers@ == a.layers@.remove(idx)
    &&& forall|k: LayerId| #[trigger] b.groups@.contains_key(k) <==> ga.contains_key(k) && !under(ga, k, root)
    &&& forall|k: LayerId| #[trigger] b.groups@.contains_key(k) ==> b.groups@[k] == ga[k]
    &&& forall|e: u32| #[trigger]
        b.edge_to_group@.contains_key(e) <==> em.contains_key(e) && !under(ga, em[e], root)
    &&& forall|e: u32| #[trigger] b.edge_to_group@.contains_key(e) ==> b.edge_to_group@[e] == em[e]
    &&& removed.no_duplicates()
    &&& forall|e: u32| #[trigger] removed.contains(e) <==> em.contains_key(e) && under(ga, em[e], root)
}

/// The parent of group `k` exists in `ga` but is gone from `gm`.
pub open spec fn parent_gone(ga: Map<LayerId, Group>, gm: Map<LayerId, Group>, k: LayerId) -> bool {
    match ga[k].parent {
        Some(q) => !gm.contains_key(q),
        None => false,
    }
}

/// The group part of the invariant of the walk that removes a layer's groups.
pub open spec fn removal_walk(ga: Map<LayerId, Group>, root: LayerId, gm: Map<LayerId, Group>, stack: Seq<LayerId>) -> bool {
    &&& forall|k: LayerId| #[trigger] gm.contains_key(k) ==> ga.contains_key(k) && gm[k] == ga[k]
    &&& forall|k: LayerId| ga.contains_key(k) && !#[trigger] gm.contains_key(k) ==> under(ga, k, root)
    &&& forall|k: LayerId|
        ga.contains_key(k) && !#[trigger] gm.contains_key(k) && k != root ==> parent_gone(ga, gm, k)
    &&& forall|i: int|
        0 <= i < stack.len() ==> under(ga, #[trigger] stack[i], root) && (stack[i] == root
            || parent_gone(ga, gm, stack[i]))
    &&& forall|k: LayerId|
        #[trigger] gm.contains_key(k) && under(ga, k, root) ==> exists|i: int|
            0 <= i < stack.len() && gm.contains_key(#[trigger] stack[i]) && under(ga, k, stack[i])
}

/// Popping a present group off the walk's stack, removing it and pushing its
/// children keeps the walk's invariant.
proof fn lemma_remove_layer_step(
    a: &LayerSystem,
    root: LayerId,
    gid: LayerId,
    stack0: Seq<LayerId>,
    gm0: Map<LayerId, Group>,
    gm1: Map<LayerId, Group>,
    stack1: Seq<LayerId>,
)
    requires
        a.wf(),
        a.groups@.contains_key(root),
        a.groups@[root].parent is None,
        removal_walk(a.groups@, root, gm0, stack0),
        stack0.len() > 0,
        gid == stack0.last(),
        gm0.contains_key(gid),
        gm1 == gm0.remove(gid),
        stack1 == stack0.drop_last() + a.groups@[gid].children@,
    ensures
        removal_walk(a.groups@, root, gm1, stack1),
{
    let ga = a.groups@;
    let n0 = stack0.len() - 1;
    assert(under(ga, stack0[n0], root));
    assert(ga.contains_key(gid));
    let ch = ga[gid].children@;
    assert forall|k: LayerId| ga.contains_key(k) && !#[trigger] gm1.contains_key(k) implies under(ga, k, root) by {
        if k != gid {
            assert(!gm0.contains_key(k));
        }
    }
    assert forall|k: LayerId|
        ga.contains_key(k) && !#[trigger] gm1.contains_key(k) && k != root implies parent_gone(ga, gm1, k) by {
        if k == gid {
            assert(stack0[n0] == gid);
        } else {
            assert(!gm0.contains_key(k));
        }
    }
    assert forall|i: int|
        0 <= i < stack1.len() implies under(ga, #[trigger] stack1[i], root) && (stack1[i] == root
        || parent_gone(ga, gm1, stack1[i])) by {
        if i < n0 {
            assert(stack1[i] == stack0[i]);
            assert(under(ga, stack0[i], root));
        } else {
            let c = ch[i - n0];
            assert(stack1[i] == c);
            assert(ch.contains(c));
            assert(ga.contains_key(c) && ga[c].parent == Some(gid));
            assert(gid < c);
            lemma_under_parent(ga, c, gid, root);
        }
    }
    assert forall|k: LayerId|
        #[trigger] gm1.contains_key(k) && under(ga, k, root) implies exists|i: int|
        0 <= i < stack1.len() && gm1.contains_key(#[trigger] stack1[i]) && under(ga, k, stack1[i]) by {
        assert(gm0.contains_key(k));
        let i0 = choose|i: int|
            0 <= i < stack0.len() && gm0.contains_key(#[trigger] stack0[i]) && under(ga, k, stack0[i]);
        if stack0[i0] != gid {
            assert(i0 != n0);
            assert(stack1[i0] == stack0[i0]);
            assert(gm1.contains_key(stack1[i0]));
        } else {
            assert(k != gid);
            let c = lemma_under_child(a, k, gid);
            let q = choose|q: int| 0 <= q < ch.len() && ch[q] == c;
            assert(stack1[n0 + q] == c);
            assert(ga.contains_key(c) && ga[c].parent == Some(gid));
            // c is present: were it removed, its parent gid would be too.
            if !gm0.contains_key(c) {
                assert(c != root) by {
                    if c == root {
                        assert(ga[root].parent is None);
                    }
                }
                assert(!gm0.contains_key(gid));
            }
            assert(c != gid) by {
                assert(gid < c);
            }
            assert(gm1.contains_key(c));
        }
    }
}

/// When the walk's stack is empty, exactly the groups below the root are
/// gone, and the forest is well formed again.
proof fn lemma_remove_layer_wf(a: &LayerSystem, b: &LayerSystem, idx: int, root: LayerId)
    requires
        a.wf(),
        0 <= idx < a.layers@.len(),
        root == a.layers@[idx].root_group,
        b.layers@ == a.layers@.remove(idx),
        b.next_id == a.next_id,
        removal_walk(a.groups@, root, b.groups@, Seq::<LayerId>::empty()),
        forall|e: u32| #[trigger]
            b.edge_to_group@.contains_key(e) <==> a.edge_to_group@.contains_key(e)
                && b.groups@.contains_key(a.edge_to_group@[e]),
        forall|e: u32| #[trigger]
            b.edge_to_group@.contains_key(e) ==> b.edge_to_group@[e] == a.edge_to_group@[e],
    ensures
        b.wf(),
        forall|k: LayerId| #[trigger]
            b.groups@.contains_key(k) <==> a.groups@.contains_key(k) && !under(a.groups@, k, root),
{
    let ga = a.groups@;
    let gb = b.groups@;
    assert(a.layers@[idx].id < a.next_id);
    assert(ga[root].parent is None);
    assert forall|k: LayerId| #[trigger]
        gb.contains_key(k) <==> ga.contains_key(k) && !under(ga, k, root) by {
        if gb.contains_key(k) && under(ga, k, root) {
            let i = choose|i: int| 0 <= i < 0 && gb.contains_key(#[trigger] Seq::<LayerId>::empty()[i]);
        }
    }
    assert forall|k: LayerId| #[trigger] gb.contains_key(k) implies gb[k].id == k && k < b.next_id by {}
    assert forall|k: LayerId| #[trigger] gb.contains_key(k) implies match gb[k].parent {
        Some(p) => p < k && gb.contains_key(p) && gb[p].children@.contains(k),
        None => true,
    } by {
        if let Some(p) = ga[k].parent {
            assert(ga.contains_key(p));
            if under(ga, p, root) {
                lemma_under_parent(ga, k, p, root);
            }
        }
    }
    assert forall|k: LayerId, c: LayerId|
        gb.contains_key(k) && #[trigger] gb[k].children@.contains(c) implies gb.contains_key(c)
        && gb[c].parent == Some(k) by {
        assert(ga[k].children@.contains(c));
        assert(ga.contains_key(c) && ga[c].parent == Some(k));
        if under(ga, c, root) {
            assert(c != root) by {
                if c == root {
                    assert(ga[root].parent is None);
                }
            }
            assert(under(ga, k, root));
        }
    }
    assert forall|k: LayerId| #[trigger]
        gb.contains_key(k) implies gb[k].children@.no_duplicates() && gb[k].edges@.no_duplicates() by {}
    assert forall|k: LayerId, e: u32|
        gb.contains_key(k) && #[trigger] gb[k].edges@.contains(e) implies b.edge_to_group@.contains_key(e)
        && b.edge_to_group@[e] == k by {
        assert(ga[k].edges@.contains(e));
    }
    assert forall|e: u32| #[trigger]
        b.edge_to_group@.contains_key(e) implies gb.contains_key(b.edge_to_group@[e])
        && gb[b.edge_to_group@[e]].edges@.contains(e) by {
        assert(ga.contains_key(a.edge_to_group@[e]));
    }
    assert forall|i: int|
        0 <= i < b.layers@.len() implies #[trigger] b.layers@[i].id < b.next_id && gb.contains_key(
        b.layers@[i].root_group,
    ) && gb[b.layers@[i].root_group].parent is None by {
        let j = if i < idx {
            i
        } else {
            i + 1
        };
        assert(b.layers@[i] == a.layers@[j]);
        assert(a.layers@[j].id < a.next_id);
        let r = a.layers@[j].root_group;
        assert(ga.contains_key(r) && ga[r].parent is None);
        assert(a.layers@[idx].id < a.next_id);
        assert(a.layers@[j].id != a.layers@[idx].id || j == idx);
        assert(r != root) by {
            if j < idx {
                assert(a.layers@[j].root_group != a.layers@[idx].root_group);
            } else {
                assert(a.layers@[idx].root_group != a.layers@[j].root_group);
            }
        }
        if under(ga, r, root) {
            lemma_under_root(ga, r, root);
        }
        assert(gb.contains_key(r));
        assert(gb[r] == ga[r]);
    }
    assert forall|i: int, j: int|
        0 <= i < j < b.layers@.len() implies #[trigger] b.layers@[i].id != #[trigger] b.layers@[j].id
        && b.layers@[i].root_group != b.layers@[j].root_group by {
        let ii = if i < idx {
            i
        } else {
            i + 1
        };
        let jj = if j < idx {
            j
        } else {
            j + 1
        };
        assert(b.layers@[i] == a.layers@[ii]);
        assert(b.layers@[j] == a.layers@[jj]);
        assert(a.layers@[ii].id != a.layers@[jj].id);
    }
}

// ---------------------------------------------------------------------------
// Z-order
// ---------------------------------------------------------------------------
/// Layer position `x` comes before layer position `y` in z-order: lower
/// z-index first, ties kept in list order.
pub open spec fn z_before(layers: Seq<Layer>, x: int, y: int) -> bool {
    layers[x].z_index < layers[y].z_index || (layers[x].z_index == layers[y].z_index && x < y)
}

/// `order` lists every position of `layers` once, in z-order.
pub open spec fn is_z_order(layers: Seq<Layer>, order: Seq<int>) -> bool {
    &&& order.len() == layers.len()
    &&& forall|a: int| 0 <= a < order.len() ==> 0 <= #[trigger] order[a] < layers.len()
    &&& forall|a: int, b: int| 0 <= a < b < order.len() ==> z_before(layers, #[trigger] order[a], #[trigger] order[b])
}

impl LayerSystem {
    /// Get layers in z-order (bottom to top); layers with equal z-index keep
    /// their list order.
    pub fn layers_ordered(&self) -> (r: Vec<&Layer>)
        ensures
            exists|order: Seq<int>|
                is_z_order(self.layers@, order) && r@.len() == order.len() && forall|a: int|
                    0 <= a < order.len() ==> #[trigger] r@[a] == &self.layers@[order[a]],
    {
        let n = self.layers.len();
        let mut idx: Vec<usize> = Vec::new();
        let mut i: usize = 0;
        while i < n
            invariant
                n == self.layers@.len(),
                i <= n,
                idx@.len() == i,
                forall|a: int| 0 <= a < i ==> #[trigger] idx@[a] < i,
                forall|a: int, b: int|
                    0 <= a < b < i ==> z_before(self.layers@, #[trigger] idx@[a] as int, #[trigger] idx@[b] as int),
            decreases n - i,
        {
            let z = self.layers[i].z_index;
            let mut p: usize = i;
            while p > 0 && self.layers[idx[p - 1]].z_index > z
                invariant
                    n == self.layers@.len(),
                    i < n,
                    p <= i,
                    idx@.len() == i,
                    z == self.layers@[i as int].z_index,
                    forall|a: int| 0 <= a < i ==> #[trigger] idx@[a] < i,
                    forall|a: int| p <= a < i ==> self.layers@[#[trigger] idx@[a] as int].z_index > z,
                decreases p,
            {
                p = p - 1;
            }
            proof {
                // Everything before p precedes i: smaller z, or equal z and a smaller position.
                assert forall|a: int| 0 <= a < p implies z_before(self.layers@, #[trigger] idx@[a] as int, i as int) by {
                    if p > 0 {
                        assert(z_before(self.layers@, idx@[a] as int, idx@[p - 1] as int) || a == p - 1);
                    }
                }
            }
            let ghost before = idx@;
            idx.insert(p, i);
            proof {
                assert forall|a: int| 0 <= a < i + 1 implies #[trigger] idx@[a] < i + 1 by {
                    if a < p {
                        assert(idx@[a] == before[a]);
                    } else if a > p {
                        assert(idx@[a] == before[a - 1]);
                    }
                }
                assert forall|a: int, b: int|
                    0 <= a < b < i + 1 implies z_before(self.layers@, #[trigger] idx@[a] as int, #[trigger] idx@[b] as int) by {
                    if a < p && b < p {
                        assert(idx@[a] == before[a] && idx@[b] == before[b]);
                    } else if a < p && b == p {
                        assert(idx@[a] == before[a]);
                    } else if a < p && b > p {
                        assert(idx@[a] == before[a] && idx@[b] == before[b - 1]);
                    } else if a == p {
                        assert(idx@[b] == before[b - 1]);
                        assert(self.layers@[before[b - 1] as int].z_index > z);
                    } else {
                        assert(idx@[a] == before[a - 1] && idx@[b] == before[b - 1]);
                    }
                }
            }
            i = i + 1;
        }
        let mut out: Vec<&Layer> = Vec::new();
        let mut k: usize = 0;
        while k < n
            invariant
                n == self.layers@.len(),
                idx@.len() == n,
                forall|a: int| 0 <= a < n ==> #[trigger] idx@[a] < n,
                k <= n,
                out@.len() == k,
                forall|a: int| 0 <= a < k ==> #[trigger] out@[a] == &self.layers@[idx@[a] as int],
            decreases n - k,
        {
            out.push(&self.layers[idx[k]]);
            k = k + 1;
        }
        proof {
            let order = Seq::new(n as nat, |a: int| idx@[a] as int);
            assert(is_z_order(self.layers@, order));
            assert(forall|a: int| 0 <= a < order.len() ==> #[trigger] out@[a] == &self.layers@[order[a]]);
        }
        out
    }
}

// ---------------------------------------------------------------------------
// Laws
// ---------------------------------------------------------------------------
proof fn lemma_hidden_above_hides_chain(sys: &LayerSystem, x: LayerId, g: LayerId)
    requires
        sys.wf(),
        under(sys.groups@, x, g),
        !sys.groups@[g].visible,
    ensures
        !chain_visible(sys.groups@, sys.layers@, x),
    decreases x,
{
    let gm = sys.groups@;
    if x != g && gm[x].visible {
        let p = gm[x].parent->0;
        lemma_hidden_above_hides_chain(sys, p, g);
    }
}

/// Hiding a group hides every edge in it or in any group below it.
pub proof fn lemma_hidden_group_hides_edge(sys: &LayerSystem, edge_id: u32, g: LayerId)
    requires
        sys.wf(),
        sys.edge_to_group@.contains_key(edge_id),
        under(sys.groups@, sys.edge_to_group@[edge_id], g),
        !sys.groups@[g].visible,
    ensures
        !sys.edge_visible(edge_id),
{
    lemma_hidden_above_hides_chain(sys, sys.edge_to_group@[edge_id], g);
}

proof fn lemma_layer_of_root_is(layers: Seq<Layer>, i: int)
    requires
        0 <= i < layers.len(),
        forall|a: int, b: int|
            0 <= a < b < layers.len() ==> layers[a].root_group != layers[b].root_group,
    ensures
        layer_of_root(layers, layers[i].root_group) == Some(layers[i]),
    decreases i,
{
    if i > 0 {
        assert(layers[0].root_group != layers[i].root_group);
        let t = layers.drop_first();
        assert forall|a: int, b: int| 0 <= a < b < t.len() implies t[a].root_group != t[b].root_group by {
            assert(t[a] == layers[a + 1] && t[b] == layers[b + 1]);
        }
        lemma_layer_of_root_is(t, i - 1);
        assert(t[i - 1] == layers[i]);
    }
}

proof fn lemma_hidden_layer_hides_chain(sys: &LayerSystem, x: LayerId, i: int)
    requires
        sys.wf(),
        0 <= i < sys.layers@.len(),
        under(sys.groups@, x, sys.layers@[i].root_group),
        !sys.layers@[i].visible,
    ensures
        !chain_visible(sys.groups@, sys.layers@, x),
    decreases x,
{
    let gm = sys.groups@;
    let root = sys.layers@[i].root_group;
    if gm[x].visible {
        if x == root {
            assert(sys.layers@[i].id < sys.next_id);
            assert(gm[root].parent is None);
            assert forall|a: int, b: int|
                0 <= a < b < sys.layers@.len() implies sys.layers@[a].root_group != sys.layers@[b].root_group by {
                assert(sys.layers@[a].id != sys.layers@[b].id);
            }
            lemma_layer_of_root_is(sys.layers@, i);
        } else {
            let p = gm[x].parent->0;
            lemma_hidden_layer_hides_chain(sys, p, i);
        }
    }
}

/// Hiding a layer hides every edge in its groups.
pub proof fn lemma_hidden_layer_hides_edge(sys: &LayerSystem, edge_id: u32, i: int)
    requires
        sys.wf(),
        0 <= i < sys.layers@.len(),
        sys.edge_to_group@.contains_key(edge_id),
        under(sys.groups@, sys.edge_to_group@[edge_id], sys.layers@[i].root_group),
        !sys.layers@[i].visible,
    ensures
        !sys.edge_visible(edge_id),
{
    lemma_hidden_layer_hides_chain(sys, sys.edge_to_group@[edge_id], i);
}

/// In a well-formed forest, every layer's root group exists and has no
/// parent.
pub proof fn lemma_root_groups_exist(ls: &LayerSystem)
    requires
        ls.wf(),
    ensures
        forall|i: int|
            0 <= i < ls.layers@.len() ==> ls.groups@.contains_key(#[trigger] ls.layers@[i].root_group)
                && ls.groups@[ls.layers@[i].root_group].parent is None,
{
    assert forall|i: int| 0 <= i < ls.layers@.len() implies ls.groups@.contains_key(#[trigger] ls.layers@[i].root_group)
        && ls.groups@[ls.layers@[i].root_group].parent is None by {
        assert(ls.layers@[i].id < ls.next_id);
    }
}

/// The next identifier is unused: no group and no layer has it, so the
/// identifiers that creating a layer or a group hands out are fresh.
pub proof fn lemma_next_id_fresh(sys: &LayerSystem)
    requires
        sys.wf(),
    ensures
        !sys.groups@.contains_key(sys.next_id),
        forall|i: int| 0 <= i < sys.layers@.len() ==> #[trigger] sys.layers@[i].id != sys.next_id,
{
    assert forall|i: int| 0 <= i < sys.layers@.len() implies #[trigger] sys.layers@[i].id != sys.next_id by {
        assert(sys.layers@[i].id < sys.next_id);
    }
}

/// An edge is listed by at most one group, and the group it is mapped to
/// lists it.
pub proof fn lemma_edge_in_one_group(sys: &LayerSystem, edge_id: u32, k: LayerId)
    requires
        sys.wf(),
        sys.groups@.contains_key(k),
        sys.groups@[k].edges@.contains(edge_id),
    ensures
        sys.edge_to_group@.contains_key(edge_id),
        sys.edge_to_group@[edge_id] == k,
{
}

// ---------------------------------------------------------------------------
// Sequences without a value
// ---------------------------------------------------------------------------
/// `s` with every occurrence of `x` left out, order kept.
pub open spec fn without(s: Seq<u32>, x: u32) -> Seq<u32>
    decreases s.len(),
{
    if s.len() == 0 {
        s
    } else if s.last() == x {
        without(s.drop_last(), x)
    } else {
        without(s.drop_last(), x).push(s.last())
    }
}

proof fn lemma_push_contains(s: Seq<u32>, x: u32, y: u32)
    ensures
        s.push(x).contains(y) <==> s.contains(y) || y == x,
{
    if s.push(x).contains(y) && y != x {
        let k = choose|k: int| 0 <= k < s.push(x).len() && s.push(x)[k] == y;
        assert(s[k] == y);
    }
    if s.contains(y) {
        let k = choose|k: int| 0 <= k < s.len() && s[k] == y;
        assert(s.push(x)[k] == y);
    }
    if y == x {
        assert(s.push(x)[s.len() as int] == y);
    }
}

proof fn lemma_without_contains(s: Seq<u32>, x: u32, y: u32)
    ensures
        without(s, x).contains(y) <==> s.contains(y) && y != x,
    decreases s.len(),
{
    if s.len() > 0 {
        let t = s.drop_last();
        lemma_without_contains(t, x, y);
        assert(s =~= t.push(s.last()));
        lemma_push_contains(t, s.last(), y);
        lemma_push_contains(without(t, x), s.last(), y);
    }
}

proof fn lemma_without_absent(s: Seq<u32>, x: u32)
    requires
        !s.contains(x),
    ensures
        without(s, x) == s,
    decreases s.len(),
{
    if s.len() > 0 {
        assert(!s.drop_last().contains(x)) by {
            if s.drop_last().contains(x) {
                let k = choose|k: int| 0 <= k < s.drop_last().len() && s.drop_last()[k] == x;
                assert(s[k] == x);
            }
        }
        lemma_without_absent(s.drop_last(), x);
        assert(s =~= s.drop_last().push(s.last()));
    }
}

proof fn lemma_without_no_duplicates(s: Seq<u32>, x: u32)
    requires
        s.no_duplicates(),
    ensures
        without(s, x).no_duplicates(),
    decreases s.len(),
{
    if s.len() > 0 {
        assert(s.drop_last().no_duplicates());
        lemma_without_no_duplicates(s.drop_last(), x);
        if s.last() != x {
            lemma_without_contains(s.drop_last(), x, s.last());
            assert(!s.drop_last().contains(s.last())) by {
                if s.drop_last().contains(s.last()) {
                    let k = choose|k: int|
                        0 <= k < s.drop_last().len() && s.drop_last()[k] == s.last();
                    assert(s[k] == s[s.len() - 1]);
                }
            }
        }
    }
}

proof fn lemma_push_no_duplicates(s: Seq<u32>, x: u32)
    requires
        s.no_duplicates(),
        !s.contains(x),
    ensures
        s.push(x).no_duplicates(),
        forall|y: u32| s.push(x).contains(y) <==> s.contains(y) || y == x,
{
    assert forall|y: u32| s.push(x).contains(y) <==> s.contains(y) || y == x by {
        if s.push(x).contains(y) && y != x {
            let k = choose|k: int| 0 <= k < s.push(x).len() && s.push(x)[k] == y;
            assert(s[k] == y);
        }
        if s.contains(y) {
            let k = choose|k: int| 0 <= k < s.len() && s[k] == y;
            assert(s.push(x)[k] == y);
        }
        if y == x {
            assert(s.push(x)[s.len() as int] == y);
        }
    }
}

/// A copy of `v` without any occurrence of `x`.
fn vec_without(v: &Vec<u32>, x: u32) -> (r: Vec<u32>)
    ensures
        r@ == without(v@, x),
{
    let mut r: Vec<u32> = Vec::new();
    let mut i: usize = 0;
    while i < v.len()
        invariant
            i <= v@.len(),
            r@ == without(v@.take(i as int), x),
        decreases v@.len() - i,
    {
        assert(v@.take(i + 1).drop_last() =~= v@.take(i as int));
        if v[i] != x {
            r.push(v[i]);
        }
        i = i + 1;
    }
    assert(v@.take(i as int) =~= v@);
    r
}

proof fn lemma_layer_pos_bounds(layers: Seq<Layer>, id: LayerId)
    ensures
        layer_pos(layers, id) matches Some(i) ==> 0 <= i < layers.len() && layers[i].id == id,
    decreases layers.len(),
{
    if layers.len() > 0 {
        lemma_layer_pos_bounds(layers.drop_last(), id);
    }
}

proof fn lemma_layer_pos_prefix(layers: Seq<Layer>, i: int, id: LayerId)
    requires
        1 <= i <= layers.len(),
    ensures
        layers.take(i).drop_last() == layers.take(i - 1),
        layers.take(i).last() == layers[i - 1],
{
    assert(layers.take(i).drop_last() =~= layers.take(i - 1));
}

proof fn lemma_layer_pos_extends(layers: Seq<Layer>, i: int, id: LayerId)
    requires
        1 <= i <= layers.len(),
        layer_pos(layers.take(i), id) is Some,
    ensures
        layer_pos(layers, id) == layer_pos(layers.take(i), id),
    decreases layers.len(),
{
    if i < layers.len() {
        assert(layers.drop_last().take(i) =~= layers.take(i));
        lemma_layer_pos_extends(layers.drop_last(), i, id);
    } else {
        assert(layers.take(i) =~= layers);
    }
}

} // verus!

verus! {

/// Group `j` of `gs` has id `id`.
pub open spec fn has_group(gs: Seq<Group>, id: LayerId) -> bool {
    exists|j: int| 0 <= j < gs.len() && (#[trigger] gs[j]).id == id
}

/// Group ids are distinct and below `u32::MAX`.
pub open spec fn group_ids_ok(gs: Seq<Group>) -> bool {
    &&& forall|i: int, j: int| 0 <= i < j < gs.len() ==> (#[trigger] gs[i]).id != (#[trigger] gs[j]).id
    &&& forall|i: int| 0 <= i < gs.len() ==> (#[trigger] gs[i]).id < u32::MAX
}

/// Layer ids are below `u32::MAX`; layer ids and root groups are distinct.
pub open spec fn layer_ids_ok(ls: Seq<Layer>) -> bool {
    &&& forall|i: int| 0 <= i < ls.len() ==> (#[trigger] ls[i]).id < u32::MAX
    &&& forall|i: int, j: int|
        0 <= i < j < ls.len() ==> (#[trigger] ls[i]).id != (#[trigger] ls[j]).id && ls[i].root_group != ls[j].root_group
}

/// Each layer's root group exists and has no parent.
pub open spec fn roots_ok(ls: Seq<Layer>, gs: Seq<Group>) -> bool {
    forall|i: int| 0 <= i < ls.len() ==> root_found(gs, #[trigger] ls[i].root_group)
}

/// A group of `gs` has id `root` and no parent.
pub open spec fn root_found(gs: Seq<Group>, root: LayerId) -> bool {
    exists|j: int| #![trigger gs[j]] 0 <= j < gs.len() && gs[j].id == root && gs[j].parent is None
}

/// No group lists a child twice; a group's parent has a lower id and
/// lists it as a child; each child listed is a group whose parent is the
/// lister.
pub open spec fn links_ok(gs: Seq<Group>) -> bool {
    &&& forall|i: int| 0 <= i < gs.len() ==> (#[trigger] gs[i]).children@.no_duplicates()
    &&& forall|i: int|
        0 <= i < gs.len() ==> match (#[trigger] gs[i]).parent {
            Some(p) => p < gs[i].id && exists|j: int|
                #![trigger gs[j]]
                0 <= j < gs.len() && gs[j].id == p && gs[j].children@.contains(gs[i].id),
            None => true,
        }
    &&& forall|i: int, c: LayerId|
        0 <= i < gs.len() && #[trigger] gs[i].children@.contains(c) ==> exists|j: int|
            #![trigger gs[j]]
            0 <= j < gs.len() && gs[j].id == c && gs[j].parent == Some(gs[i].id)
}

/// No edge is listed twice, in one group or in two.
pub open spec fn edges_ok(gs: Seq<Group>) -> bool {
    &&& forall|i: int| 0 <= i < gs.len() ==> (#[trigger] gs[i]).edges@.no_duplicates()
    &&& forall|i: int, j: int, e: u32|
        0 <= i < j < gs.len() && #[trigger] gs[i].edges@.contains(e) ==> !#[trigger] gs[j].edges@.contains(e)
}

/// Layers `ls` and groups `gs`, as a document lists them, form a forest.
pub open spec fn forest_ok(ls: Seq<Layer>, gs: Seq<Group>) -> bool {
    &&& group_ids_ok(gs)
    &&& layer_ids_ok(ls)
    &&& roots_ok(ls, gs)
    &&& links_ok(gs)
    &&& edges_ok(gs)
}

/// `idx` maps each group id of `gs` to its position.
pub open spec fn indexes(idx: Map<LayerId, usize>, gs: Seq<Group>) -> bool {
    &&& forall|k: LayerId| #[trigger] idx.contains_key(k) ==> idx[k] < gs.len() && gs[idx[k] as int].id == k
    &&& forall|j: int| 0 <= j < gs.len() ==> idx.contains_key(#[trigger] gs[j].id)
}

/// The largest id among layers `ls` and groups `gs`; 0 for none.
pub open spec fn max_forest_id(ls: Seq<Layer>, gs: Seq<Group>) -> nat
    decreases ls.len() + gs.len(),
{
    if gs.len() > 0 {
        let m = max_forest_id(ls, gs.drop_last());
        if gs.last().id > m { gs.last().id as nat } else { m }
    } else if ls.len() > 0 {
        let m = max_forest_id(ls.drop_last(), gs);
        if ls.last().id > m { ls.last().id as nat } else { m }
    } else {
        0
    }
}

/// `sys` is the forest of layers `ls` and groups `gs`: the same layers,
/// each group under its id, each listed edge mapped to its group, and the
/// next id above every id used.
pub open spec fn restored_from(sys: LayerSystem, ls: Seq<Layer>, gs: Seq<Group>) -> bool {
    &&& sys.layers@ == ls
    &&& forall|k: LayerId| #[trigger] sys.groups@.contains_key(k) <==> has_group(gs, k)
    &&& forall|i: int| 0 <= i < gs.len() ==> sys.groups@[(#[trigger] gs[i]).id] == gs[i]
    &&& forall|e: u32| #[trigger] sys.edge_to_group@.contains_key(e) <==> exists|i: int| 0 <= i < gs.len() && (#[trigger] gs[i]).edges@.contains(e)
    &&& forall|i: int, e: u32| 0 <= i < gs.len() && #[trigger] gs[i].edges@.contains(e) ==> sys.edge_to_group@[e] == gs[i].id
    &&& sys.next_id == max_forest_id(ls, gs) + 1
}

proof fn lemma_max_forest_id(ls: Seq<Layer>, gs: Seq<Group>)
    ensures
        forall|i: int| 0 <= i < gs.len() ==> (#[trigger] gs[i]).id <= max_forest_id(ls, gs),
        forall|i: int| 0 <= i < ls.len() ==> (#[trigger] ls[i]).id <= max_forest_id(ls, gs),
        max_forest_id(ls, gs) == 0 || (exists|i: int| 0 <= i < gs.len() && gs[i].id == max_forest_id(ls, gs))
            || (exists|i: int| 0 <= i < ls.len() && ls[i].id == max_forest_id(ls, gs)),
    decreases ls.len() + gs.len(),
{
    if gs.len() > 0 {
        let g0 = gs.drop_last();
        lemma_max_forest_id(ls, g0);
        assert forall|i: int| 0 <= i < gs.len() implies (#[trigger] gs[i]).id <= max_forest_id(ls, gs) by {
            if i < gs.len() - 1 {
                assert(g0[i] == gs[i]);
            }
        }
        if max_forest_id(ls, gs) != gs.last().id && max_forest_id(ls, gs) != 0 {
            if exists|i: int| 0 <= i < g0.len() && g0[i].id == max_forest_id(ls, g0) {
                let i = choose|i: int| 0 <= i < g0.len() && g0[i].id == max_forest_id(ls, g0);
                assert(gs[i] == g0[i]);
            }
        }
    } else if ls.len() > 0 {
        let l0 = ls.drop_last();
        lemma_max_forest_id(l0, gs);
        assert forall|i: int| 0 <= i < ls.len() implies (#[trigger] ls[i]).id <= max_forest_id(ls, gs) by {
            if i < ls.len() - 1 {
                assert(l0[i] == ls[i]);
            }
        }
        if max_forest_id(ls, gs) != ls.last().id && max_forest_id(ls, gs) != 0 {
            let i = choose|i: int| 0 <= i < l0.len() && l0[i].id == max_forest_id(l0, gs);
            assert(ls[i] == l0[i]);
        }
    }
}

fn vec_has(v: &Vec<LayerId>, x: LayerId) -> (r: bool)
    ensures
        r == v@.contains(x),
{
    let mut i: usize = 0;
    while i < v.len()
        invariant
            i <= v@.len(),
            forall|q: int| 0 <= q < i ==> v@[q] != x,
        decreases v@.len() - i,
    {
        if v[i] == x {
            assert(v@[i as int] == x);
            return true;
        }
        i = i + 1;
    }
    false
}

fn all_distinct(v: &Vec<u32>) -> (r: bool)
    ensures
        r == v@.no_duplicates(),
{
    let mut seen: HashSet<u32> = HashSet::new();
    let mut i: usize = 0;
    while i < v.len()
        invariant
            i <= v@.len(),
            forall|x: u32| #[trigger] seen@.contains(x) <==> v@.take(i as int).contains(x),
            v@.take(i as int).no_duplicates(),
        decreases v@.len() - i,
    {
        let ghost t0 = v@.take(i as int);
        let ghost t1 = v@.take(i + 1);
        proof {
            assert(t1 =~= t0.push(v@[i as int]));
        }
        if !seen.insert(v[i]) {
            proof {
                let q = choose|q: int| 0 <= q < t0.len() && t0[q] == v@[i as int];
                assert(v@[q] == v@[i as int]);
            }
            return false;
        }
        proof {
            assert forall|x: u32| #[trigger] seen@.contains(x) <==> t1.contains(x) by {
                if t0.contains(x) {
                    let q = choose|q: int| 0 <= q < t0.len() && t0[q] == x;
                    assert(t1[q] == x);
                }
                if x == v@[i as int] {
                    assert(t1[i as int] == x);
                }
                if t1.contains(x) && x != v@[i as int] {
                    let q = choose|q: int| 0 <= q < t1.len() && t1[q] == x;
                    assert(t0[q] == x);
                }
            }
        }
        i = i + 1;
    }
    assert(v@.take(v@.len() as int) =~= v@);
    true
}

} // verus!

verus! {

/// The position of each group by id, when group ids are distinct and
/// below `u32::MAX`.
fn index_groups(groups: &Vec<Group>) -> (r: Option<HashMap<LayerId, usize>>)
    ensures
        r is Some <==> group_ids_ok(groups@),
        r matches Some(idx) ==> indexes(idx@, groups@),
{
    let ghost gs = groups@;
    let n = groups.len();
    let mut idx: HashMap<LayerId, usize> = HashMap::new();
    let mut i: usize = 0;
    while i < n
        invariant
            gs == groups@,
            n == gs.len(),
            i <= n,
            forall|k: LayerId| #[trigger] idx@.contains_key(k) ==> idx@[k] < i && gs[idx@[k] as int].id == k,
            forall|j: int| 0 <= j < i ==> idx@.contains_key(#[trigger] gs[j].id),
            forall|a: int, b: int| 0 <= a < b < i ==> (#[trigger] gs[a]).id != (#[trigger] gs[b]).id,
            forall|j: int| 0 <= j < i ==> (#[trigger] gs[j]).id < u32::MAX,
        decreases n - i,
    {
        let id = groups[i].id;
        if id == u32::MAX {
            return None;
        }
        if idx.contains_key(&id) {
            proof {
                let j = idx@[id] as int;
                assert(gs[j].id == gs[i as int].id);
            }
            return None;
        }
        idx.insert(id, i);
        i = i + 1;
    }
    Some(idx)
}

/// Whether layer ids are below `u32::MAX` and layer ids and root groups
/// distinct.
fn check_layer_ids(layers: &Vec<Layer>) -> (r: bool)
    ensures
        r == layer_ids_ok(layers@),
{
    let ghost ls = layers@;
    let mut lids: HashSet<LayerId> = HashSet::new();
    let mut roots: HashSet<LayerId> = HashSet::new();
    let mut li: usize = 0;
    while li < layers.len()
        invariant
            ls == layers@,
            li <= ls.len(),
            forall|j: int| 0 <= j < li ==> (#[trigger] ls[j]).id < u32::MAX,
            forall|a: int, b: int| 0 <= a < b < li ==> (#[trigger] ls[a]).id != (#[trigger] ls[b]).id && ls[a].root_group != ls[b].root_group,
            forall|x: LayerId| #[trigger] lids@.contains(x) <==> exists|j: int| 0 <= j < li && (#[trigger] ls[j]).id == x,
            forall|x: LayerId| #[trigger] roots@.contains(x) <==> exists|j: int| 0 <= j < li && (#[trigger] ls[j]).root_group == x,
        decreases ls.len() - li,
    {
        let l = &layers[li];
        if l.id == u32::MAX {
            return false;
        }
        if lids.contains(&l.id) {
            proof {
                let j = choose|j: int| 0 <= j < li && (#[trigger] ls[j]).id == l.id;
            }
            return false;
        }
        if roots.contains(&l.root_group) {
            proof {
                let j = choose|j: int| 0 <= j < li && (#[trigger] ls[j]).root_group == l.root_group;
            }
            return false;
        }
        lids.insert(l.id);
        roots.insert(l.root_group);
        proof {
            assert forall|x: LayerId| #[trigger] lids@.contains(x) <==> exists|j: int| 0 <= j < li + 1 && (#[trigger] ls[j]).id == x by {
                if x == l.id {
                    assert(ls[li as int].id == x);
                }
            }
            assert forall|x: LayerId| #[trigger] roots@.contains(x) <==> exists|j: int| 0 <= j < li + 1 && (#[trigger] ls[j]).root_group == x by {
                if x == l.root_group {
                    assert(ls[li as int].root_group == x);
                }
            }
        }
        li = li + 1;
    }
    true
}

/// Two positions of `gs` with one id are the same, when ids are distinct.
proof fn lemma_same_id(gs: Seq<Group>, a: int, b: int)
    requires
        group_ids_ok(gs),
        0 <= a < gs.len(),
        0 <= b < gs.len(),
        gs[a].id == gs[b].id,
    ensures
        a == b,
{
    if a < b {
        assert(gs[a].id != gs[b].id);
    } else if b < a {
        assert(gs[b].id != gs[a].id);
    }
}

/// Whether each layer's root group exists and has no parent.
fn check_roots(layers: &Vec<Layer>, groups: &Vec<Group>, idx: &HashMap<LayerId, usize>) -> (r: bool)
    requires
        group_ids_ok(groups@),
        indexes(idx@, groups@),
    ensures
        r == roots_ok(layers@, groups@),
{
    let ghost ls = layers@;
    let ghost gs = groups@;
    let mut li: usize = 0;
    while li < layers.len()
        invariant
            ls == layers@,
            gs == groups@,
            group_ids_ok(gs),
            indexes(idx@, gs),
            li <= ls.len(),
            forall|j: int| 0 <= j < li ==> root_found(gs, #[trigger] ls[j].root_group),
        decreases ls.len() - li,
    {
        let root = layers[li].root_group;
        match idx.get(&root) {
            Some(q) => {
                let q = *q;
                if groups[q].parent.is_some() {
                    proof {
                        assert forall|q2: int| 0 <= q2 < gs.len() && gs[q2].id == root implies gs[q2].parent is Some by {
                            lemma_same_id(gs, q2, q as int);
                        }
                    }
                    return false;
                }
                assert(gs[q as int].id == ls[li as int].root_group);
            },
            None => {
                proof {
                    assert forall|q2: int| 0 <= q2 < gs.len() implies gs[q2].id != root by {
                        assert(idx@.contains_key(gs[q2].id));
                    }
                }
                return false;
            },
        }
        li = li + 1;
    }
    assert(li == ls.len());
    true
}

/// Whether the children of group `g`, at position `i` of `groups`, are
/// groups whose parent is `g`.
fn check_children(groups: &Vec<Group>, i: usize, idx: &HashMap<LayerId, usize>) -> (r: bool)
    requires
        group_ids_ok(groups@),
        indexes(idx@, groups@),
        i < groups@.len(),
    ensures
        r == forall|c: LayerId|
            #[trigger] groups@[i as int].children@.contains(c) ==> exists|q: int|
                #![trigger groups@[q]]
                0 <= q < groups@.len() && groups@[q].id == c && groups@[q].parent == Some(groups@[i as int].id),
{
    let ghost gs = groups@;
    let g = &groups[i];
    let mut c: usize = 0;
    while c < g.children.len()
        invariant
            gs == groups@,
            group_ids_ok(gs),
            indexes(idx@, gs),
            i < gs.len(),
            g == gs[i as int],
            c <= g.children@.len(),
            forall|w: int| 0 <= w < c ==> exists|q: int|
                #![trigger gs[q]]
                0 <= q < gs.len() && gs[q].id == (#[trigger] g.children@[w]) && gs[q].parent == Some(g.id),
        decreases g.children@.len() - c,
    {
        let ch = g.children[c];
        match idx.get(&ch) {
            Some(q) => {
                let q = *q;
                if groups[q].parent != Some(g.id) {
                    proof {
                        assert forall|q2: int| 0 <= q2 < gs.len() && gs[q2].id == ch implies gs[q2].parent != Some(g.id) by {
                            lemma_same_id(gs, q2, q as int);
                        }
                        assert(g.children@[c as int] == ch);
                        assert(gs[i as int].children@.contains(ch));
                    }
                    return false;
                }
                assert(gs[q as int].id == g.children@[c as int]);
            },
            None => {
                proof {
                    assert forall|q2: int| 0 <= q2 < gs.len() implies gs[q2].id != ch by {
                        assert(idx@.contains_key(gs[q2].id));
                    }
                    assert(g.children@[c as int] == ch);
                    assert(gs[i as int].children@.contains(ch));
                }
                return false;
            },
        }
        c = c + 1;
    }
    proof {
        assert forall|ch: LayerId| #[trigger] g.children@.contains(ch) implies exists|q: int|
            #![trigger gs[q]]
            0 <= q < gs.len() && gs[q].id == ch && gs[q].parent == Some(g.id) by {
            let w = choose|w: int| 0 <= w < g.children@.len() && g.children@[w] == ch;
            assert(g.children@[w] == ch);
        }
    }
    true
}

/// Whether group `i` of `groups` lists no child twice and, if it has a
/// parent, the parent has a lower id and lists it.
fn check_parent(groups: &Vec<Group>, i: usize, idx: &HashMap<LayerId, usize>) -> (r: bool)
    requires
        group_ids_ok(groups@),
        indexes(idx@, groups@),
        i < groups@.len(),
    ensures
        r == (groups@[i as int].children@.no_duplicates() && match groups@[i as int].parent {
            Some(p) => p < groups@[i as int].id && exists|j: int|
                #![trigger groups@[j]]
                0 <= j < groups@.len() && groups@[j].id == p && groups@[j].children@.contains(groups@[i as int].id),
            None => true,
        }),
{
    let ghost gs = groups@;
    let g = &groups[i];
    if !all_distinct(&g.children) {
        return false;
    }
    match g.parent {
        Some(p) => {
            if p >= g.id {
                return false;
            }
            match idx.get(&p) {
                Some(q) => {
                    let q = *q;
                    if !vec_has(&groups[q].children, g.id) {
                        proof {
                            assert forall|q2: int| 0 <= q2 < gs.len() && gs[q2].id == p implies !gs[q2].children@.contains(gs[i as int].id) by {
                                lemma_same_id(gs, q2, q as int);
                            }
                        }
                        return false;
                    }
                    true
                },
                None => {
                    proof {
                        assert forall|q2: int| 0 <= q2 < gs.len() implies gs[q2].id != p by {
                            assert(idx@.contains_key(gs[q2].id));
                        }
                    }
                    false
                },
            }
        },
        None => true,
    }
}

/// Whether parents and children agree and no child is listed twice.
fn check_links(groups: &Vec<Group>, idx: &HashMap<LayerId, usize>) -> (r: bool)
    requires
        group_ids_ok(groups@),
        indexes(idx@, groups@),
    ensures
        r == links_ok(groups@),
{
    let ghost gs = groups@;
    let n = groups.len();
    let mut i: usize = 0;
    while i < n
        invariant
            gs == groups@,
            n == gs.len(),
            group_ids_ok(gs),
            indexes(idx@, gs),
            i <= n,
            forall|j: int| 0 <= j < i ==> (#[trigger] gs[j]).children@.no_duplicates(),
            forall|j: int|
                0 <= j < i ==> match (#[trigger] gs[j]).parent {
                    Some(p) => p < gs[j].id && exists|q: int|
                        #![trigger gs[q]]
                        0 <= q < gs.len() && gs[q].id == p && gs[q].children@.contains(gs[j].id),
                    None => true,
                },
            forall|j: int, c: LayerId|
                0 <= j < i && #[trigger] gs[j].children@.contains(c) ==> exists|q: int|
                    #![trigger gs[q]]
                    0 <= q < gs.len() && gs[q].id == c && gs[q].parent == Some(gs[j].id),
        decreases n - i,
    {
        if !check_parent(groups, i, idx) {
            return false;
        }
        if !check_children(groups, i, idx) {
            return false;
        }
        i = i + 1;
    }
    true
}

/// The group of each listed edge, when no edge is listed twice.
fn edge_owners(groups: &Vec<Group>) -> (r: Option<HashMap<u32, LayerId>>)
    ensures
        r is Some <==> edges_ok(groups@),
        r matches Some(em) ==> {
            &&& forall|e: u32| #[trigger] em@.contains_key(e) <==> exists|j: int| 0 <= j < groups@.len() && (#[trigger] groups@[j]).edges@.contains(e)
            &&& forall|j: int, e: u32| 0 <= j < groups@.len() && #[trigger] groups@[j].edges@.contains(e) ==> em@[e] == groups@[j].id
        },
{
    let ghost gs = groups@;
    let n = groups.len();
    let mut em: HashMap<u32, LayerId> = HashMap::new();
    let mut i: usize = 0;
    while i < n
        invariant
            gs == groups@,
            n == gs.len(),
            i <= n,
            forall|e: u32| #[trigger] em@.contains_key(e) <==> exists|j: int| 0 <= j < i && (#[trigger] gs[j]).edges@.contains(e),
            forall|j: int, e: u32| 0 <= j < i && #[trigger] gs[j].edges@.contains(e) ==> em@[e] == gs[j].id,
            forall|j: int| 0 <= j < i ==> (#[trigger] gs[j]).edges@.no_duplicates(),
            forall|a: int, b: int, e: u32| 0 <= a < b < i && #[trigger] gs[a].edges@.contains(e) ==> !#[trigger] gs[b].edges@.contains(e),
        decreases n - i,
    {
        let g = &groups[i];
        let ghost em0 = em@;
        let mut q: usize = 0;
        while q < g.edges.len()
            invariant
                gs == groups@,
                n == gs.len(),
                i < n,
                g == groups@[i as int],
                q <= g.edges@.len(),
                g.edges@.take(q as int).no_duplicates(),
                forall|e: u32| #[trigger] em@.contains_key(e) <==> em0.contains_key(e) || g.edges@.take(q as int).contains(e),
                forall|e: u32| #[trigger] em0.contains_key(e) ==> em@[e] == em0[e],
                forall|e: u32| #[trigger] g.edges@.take(q as int).contains(e) ==> em@[e] == g.id && !em0.contains_key(e),
                forall|e: u32| #[trigger] em0.contains_key(e) <==> exists|j: int| 0 <= j < i && (#[trigger] gs[j]).edges@.contains(e),
            decreases g.edges@.len() - q,
        {
            let e = g.edges[q];
            let ghost t0 = g.edges@.take(q as int);
            let ghost t1 = g.edges@.take(q + 1);
            proof {
                assert(t1 =~= t0.push(e));
            }
            if em.contains_key(&e) {
                proof {
                    if em0.contains_key(e) {
                        let j = choose|j: int| 0 <= j < i && (#[trigger] gs[j]).edges@.contains(e);
                        assert(gs[i as int].edges@.contains(e)) by {
                            assert(g.edges@[q as int] == e);
                        }
                    } else {
                        let w = choose|w: int| 0 <= w < t0.len() && t0[w] == e;
                        assert(g.edges@[w] == g.edges@[q as int]);
                    }
                }
                return None;
            }
            let ghost em1 = em@;
            em.insert(e, g.id);
            proof {
                assert(!em0.contains_key(e));
                assert forall|x: u32| #[trigger] em@.contains_key(x) <==> em0.contains_key(x) || t1.contains(x) by {
                    if t0.contains(x) {
                        let w = choose|w: int| 0 <= w < t0.len() && t0[w] == x;
                        assert(t1[w] == x);
                    }
                    if x == e {
                        assert(t1[q as int] == x);
                    }
                    if t1.contains(x) && x != e {
                        let w = choose|w: int| 0 <= w < t1.len() && t1[w] == x;
                        assert(t0[w] == x);
                    }
                }
                assert forall|x: u32| #[trigger] t1.contains(x) implies em@[x] == g.id && !em0.contains_key(x) by {
                    if x != e {
                        let w = choose|w: int| 0 <= w < t1.len() && t1[w] == x;
                        assert(t0[w] == x);
                        assert(t0.contains(x));
                        assert(em1[x] == g.id);
                    }
                }
                assert forall|x: u32| #[trigger] em0.contains_key(x) implies em@[x] == em0[x] by {
                    assert(em1.contains_key(x));
                }
                assert forall|a: int, b: int| 0 <= a < b < t1.len() implies t1[a] != t1[b] by {
                    if b == t1.len() - 1 {
                        assert(t0[a] == t1[a]);
                        assert(t0.contains(t1[a]));
                    } else {
                        assert(t0[a] == t1[a] && t0[b] == t1[b]);
                    }
                }
            }
            q = q + 1;
        }
        proof {
            let ed = g.edges@;
            assert(ed.take(ed.len() as int) =~= ed);
            assert forall|e: u32| #[trigger] em@.contains_key(e) <==> exists|j: int| 0 <= j < i + 1 && (#[trigger] gs[j]).edges@.contains(e) by {
                if em@.contains_key(e) && !em0.contains_key(e) {
                    assert(gs[i as int].edges@.contains(e));
                }
                if exists|j: int| 0 <= j < i + 1 && (#[trigger] gs[j]).edges@.contains(e) {
                    let j = choose|j: int| 0 <= j < i + 1 && (#[trigger] gs[j]).edges@.contains(e);
                    if j < i {
                        assert(em0.contains_key(e));
                    }
                }
            }
            assert forall|j: int, e: u32| 0 <= j < i + 1 && #[trigger] gs[j].edges@.contains(e) implies em@[e] == gs[j].id by {
                if j < i {
                    assert(em0.contains_key(e));
                }
            }
            assert forall|a: int, b: int, e: u32| 0 <= a < b < i + 1 && #[trigger] gs[a].edges@.contains(e) implies !#[trigger] gs[b].edges@.contains(e) by {
                if b == i {
                    assert(em0.contains_key(e));
                }
            }
        }
        i = i + 1;
    }
    Some(em)
}

/// The largest id among layers and groups.
fn max_id_of(layers: &Vec<Layer>, groups: &Vec<Group>) -> (m: LayerId)
    ensures
        m == max_forest_id(layers@, groups@),
{
    let ghost ls = layers@;
    let ghost gs = groups@;
    let mut max_id: LayerId = 0;
    let mut q: usize = 0;
    while q < layers.len()
        invariant
            ls == layers@,
            q <= ls.len(),
            max_id == max_forest_id(ls.take(q as int), Seq::<Group>::empty()),
        decreases ls.len() - q,
    {
        proof {
            assert(ls.take(q + 1).drop_last() =~= ls.take(q as int));
        }
        if layers[q].id > max_id {
            max_id = layers[q].id;
        }
        q = q + 1;
    }
    proof {
        assert(ls.take(ls.len() as int) =~= ls);
        assert(gs.take(0) =~= Seq::<Group>::empty());
    }
    let n = groups.len();
    let mut q: usize = 0;
    while q < n
        invariant
            gs == groups@,
            n == gs.len(),
            q <= n,
            max_id == max_forest_id(ls, gs.take(q as int)),
        decreases n - q,
    {
        proof {
            assert(gs.take(q + 1).drop_last() =~= gs.take(q as int));
        }
        if groups[q].id > max_id {
            max_id = groups[q].id;
        }
        q = q + 1;
    }
    proof {
        assert(gs.take(n as int) =~= gs);
    }
    max_id
}

/// The groups `groups`, whose ids are distinct, by id.
fn groups_by_id(groups: Vec<Group>) -> (gm: HashMap<LayerId, Group>)
    requires
        group_ids_ok(groups@),
    ensures
        forall|k: LayerId| #[trigger] gm@.contains_key(k) <==> has_group(groups@, k),
        forall|j: int| 0 <= j < groups@.len() ==> gm@[(#[trigger] groups@[j]).id] == groups@[j],
{
    let ghost gs = groups@;
    let n = groups.len();
    let mut gm: HashMap<LayerId, Group> = HashMap::new();
    let mut rest = groups;
    while rest.len() > 0
        invariant
            rest@ == gs.take(rest@.len() as int),
            rest@.len() <= n,
            n == gs.len(),
            group_ids_ok(gs),
            forall|k: LayerId| #[trigger] gm@.contains_key(k) <==> exists|j: int| rest@.len() <= j < n && (#[trigger] gs[j]).id == k,
            forall|j: int| rest@.len() <= j < n ==> gm@[(#[trigger] gs[j]).id] == gs[j],
        decreases rest@.len(),
    {
        let g = rest.pop().unwrap();
        proof {
            assert(rest@ =~= gs.take(rest@.len() as int));
            assert(g == gs[rest@.len() as int]);
        }
        gm.insert(g.id, g);
        proof {
            let r = rest@.len() as int;
            assert forall|k: LayerId| #[trigger] gm@.contains_key(k) <==> exists|j: int| r <= j < n && (#[trigger] gs[j]).id == k by {
                if k == gs[r].id {
                    assert(gs[r].id == k);
                }
            }
            assert forall|j: int| r <= j < n implies gm@[(#[trigger] gs[j]).id] == gs[j] by {
                if j != r && gs[j].id == gs[r].id {
                    lemma_same_id(gs, j, r);
                }
            }
        }
    }
    gm
}

/// A forest restored from a document is well formed.
proof fn lemma_restored_wf(sys: LayerSystem, ls: Seq<Layer>, gs: Seq<Group>)
    requires
        forest_ok(ls, gs),
        restored_from(sys, ls, gs),
    ensures
        sys.wf(),
{
    lemma_max_forest_id(ls, gs);
    let g = sys.groups@;
    let n = gs.len();
    assert forall|k: LayerId| #[trigger] g.contains_key(k) implies g[k].id == k && k < sys.next_id by {
        let j = choose|j: int| 0 <= j < n && (#[trigger] gs[j]).id == k;
        assert(g[gs[j].id] == gs[j]);
    }
    assert forall|k: LayerId| #[trigger] g.contains_key(k) implies match g[k].parent {
        Some(p) => p < k && g.contains_key(p) && g[p].children@.contains(k),
        None => true,
    } by {
        let j = choose|j: int| 0 <= j < n && (#[trigger] gs[j]).id == k;
        assert(g[gs[j].id] == gs[j]);
        if let Some(p) = gs[j].parent {
            let q = choose|q: int| 0 <= q < gs.len() && gs[q].id == p && gs[q].children@.contains(gs[j].id);
            assert(g[gs[q].id] == gs[q]);
            assert(has_group(gs, p));
        }
    }
    assert forall|k: LayerId, c: LayerId| g.contains_key(k) && #[trigger] g[k].children@.contains(c) implies g.contains_key(c)
        && g[c].parent == Some(k) by {
        let j = choose|j: int| 0 <= j < n && (#[trigger] gs[j]).id == k;
        assert(g[gs[j].id] == gs[j]);
        assert(gs[j].children@.contains(c));
        let q = choose|q: int| 0 <= q < gs.len() && gs[q].id == c && gs[q].parent == Some(gs[j].id);
        assert(g[gs[q].id] == gs[q]);
        assert(has_group(gs, c));
    }
    assert forall|k: LayerId| #[trigger] g.contains_key(k) implies g[k].children@.no_duplicates() && g[k].edges@.no_duplicates() by {
        let j = choose|j: int| 0 <= j < n && (#[trigger] gs[j]).id == k;
        assert(g[gs[j].id] == gs[j]);
    }
    assert forall|k: LayerId, e: u32| g.contains_key(k) && #[trigger] g[k].edges@.contains(e) implies sys.edge_to_group@.contains_key(e)
        && sys.edge_to_group@[e] == k by {
        let j = choose|j: int| 0 <= j < n && (#[trigger] gs[j]).id == k;
        assert(g[gs[j].id] == gs[j]);
        assert(gs[j].edges@.contains(e));
    }
    assert forall|e: u32| #[trigger] sys.edge_to_group@.contains_key(e) implies g.contains_key(sys.edge_to_group@[e])
        && g[sys.edge_to_group@[e]].edges@.contains(e) by {
        let j = choose|j: int| 0 <= j < n && (#[trigger] gs[j]).edges@.contains(e);
        assert(g[gs[j].id] == gs[j]);
        assert(has_group(gs, gs[j].id));
    }
    assert forall|i2: int| 0 <= i2 < ls.len() implies #[trigger] ls[i2].id < sys.next_id && g.contains_key(ls[i2].root_group)
        && g[ls[i2].root_group].parent is None by {
        let q = choose|q: int| 0 <= q < gs.len() && gs[q].id == ls[i2].root_group && gs[q].parent is None;
        assert(g[gs[q].id] == gs[q]);
        assert(has_group(gs, gs[q].id));
    }
}

impl LayerSystem {
    /// The forest of layers `layers` and groups `groups` as a document lists
    /// them, if they form one (see `forest_ok`); the next id is one above
    /// the largest id used.
    pub fn restore(layers: Vec<Layer>, groups: Vec<Group>) -> (r: Option<LayerSystem>)
        ensures
            r is Some <==> forest_ok(layers@, groups@),
            r matches Some(sys) ==> sys.wf() && restored_from(sys, layers@, groups@),
    {
        let ghost ls = layers@;
        let ghost gs = groups@;
        let idx = match index_groups(&groups) {
            Some(idx) => idx,
            None => return None,
        };
        if !check_layer_ids(&layers) {
            return None;
        }
        if !check_roots(&layers, &groups, &idx) {
            return None;
        }
        if !check_links(&groups, &idx) {
            return None;
        }
        let em = match edge_owners(&groups) {
            Some(em) => em,
            None => return None,
        };
        let max_id = max_id_of(&layers, &groups);
        proof {
            lemma_max_forest_id(ls, gs);
        }
        let gm = groups_by_id(groups);
        let sys = LayerSystem { layers, groups: gm, edge_to_group: em, next_id: max_id + 1 };
        proof {
            lemma_restored_wf(sys, ls, gs);
        }
        Some(sys)
    }
}
/// The groups of `m` with ids below `k`, in id order.
pub open spec fn groups_upto(m: Map<LayerId, Group>, k: int) -> Seq<Group>
    decreases k,
{
    if k <= 0 {
        seq![]
    } else if m.contains_key((k - 1) as LayerId) {
        groups_upto(m, k - 1).push(m[(k - 1) as LayerId])
    } else {
        groups_upto(m, k - 1)
    }
}

/// Groups `a` and `b` hold the same values.
pub open spec fn same_group(a: Group, b: Group) -> bool {
    &&& a.id == b.id
    &&& a.name == b.name
    &&& a.parent == b.parent
    &&& a.children@ == b.children@
    &&& a.edges@ == b.edges@
    &&& a.visible == b.visible
    &&& a.locked == b.locked
}

/// `gs` holds, in order, groups with the same values as those of `model`.
pub open spec fn same_groups(gs: Seq<Group>, model: Seq<Group>) -> bool {
    &&& gs.len() == model.len()
    &&& forall|j: int| 0 <= j < gs.len() ==> same_group(#[trigger] gs[j], model[j])
}


/// The listing of the groups below `k`: ids strictly increasing and below
/// `k`, each the group of `m` under its id, and every group of `m` below
/// `k` listed.
proof fn lemma_groups_upto(m: Map<LayerId, Group>, k: int)
    requires
        0 <= k <= u32::MAX + 1,
        forall|x: LayerId| #[trigger] m.contains_key(x) ==> m[x].id == x,
    ensures
        ({
            let gs = groups_upto(m, k);
            &&& forall|a: int, b: int| 0 <= a < b < gs.len() ==> (#[trigger] gs[a]).id < (#[trigger] gs[b]).id
            &&& forall|j: int| 0 <= j < gs.len() ==> (#[trigger] gs[j]).id < k
            &&& forall|j: int| 0 <= j < gs.len() ==> m.contains_key((#[trigger] gs[j]).id) && m[gs[j].id] == gs[j]
            &&& forall|x: LayerId| x < k && #[trigger] m.contains_key(x) ==> has_group(gs, x)
        }),
    decreases k,
{
    if k > 0 {
        lemma_groups_upto(m, k - 1);
        let g0 = groups_upto(m, k - 1);
        let gs = groups_upto(m, k);
        let x = (k - 1) as LayerId;
        if m.contains_key(x) {
            assert(gs == g0.push(m[x]));
            assert forall|y: LayerId| y < k && #[trigger] m.contains_key(y) implies has_group(gs, y) by {
                if y < k - 1 {
                    let j = choose|j: int| 0 <= j < g0.len() && (#[trigger] g0[j]).id == y;
                    assert(gs[j] == g0[j]);
                } else {
                    assert(gs[g0.len() as int].id == y);
                }
            }
            assert forall|a: int, b: int| 0 <= a < b < gs.len() implies (#[trigger] gs[a]).id < (#[trigger] gs[b]).id by {
                if b < g0.len() {
                    assert(gs[a] == g0[a] && gs[b] == g0[b]);
                } else {
                    assert(gs[a] == g0[a]);
                }
            }
            assert forall|j: int| 0 <= j < gs.len() implies (#[trigger] gs[j]).id < k by {
                if j < g0.len() {
                    assert(gs[j] == g0[j]);
                }
            }
            assert forall|j: int| 0 <= j < gs.len() implies m.contains_key((#[trigger] gs[j]).id) && m[gs[j].id] == gs[j] by {
                if j < g0.len() {
                    assert(gs[j] == g0[j]);
                }
            }
        } else {
            assert forall|y: LayerId| y < k && #[trigger] m.contains_key(y) implies has_group(gs, y) by {
                assert(y < k - 1);
            }
        }
    }
}

/// The layers of a well-formed forest and a listing of its groups in id
/// order, as a document holds them, form a forest again.
pub proof fn lemma_saved_forest_ok(ls: LayerSystem, gs: Seq<Group>)
    requires
        ls.wf(),
        same_groups(gs, groups_upto(ls.groups@, ls.next_id as int)),
    ensures
        forest_ok(ls.layers@, gs),
{
    let m = ls.groups@;
    let k = ls.next_id as int;
    let us = groups_upto(m, k);
    assert forall|x: LayerId| #[trigger] m.contains_key(x) implies m[x].id == x by {}
    lemma_groups_upto(m, k);
    assert forall|j: int| 0 <= j < gs.len() implies (#[trigger] gs[j]).id == us[j].id && m.contains_key(gs[j].id)
        && same_group(gs[j], m[gs[j].id]) by {
        assert(same_group(gs[j], us[j]));
    }
    // Group ids.
    assert forall|a: int, b: int| 0 <= a < b < gs.len() implies (#[trigger] gs[a]).id != (#[trigger] gs[b]).id by {
        assert(us[a].id < us[b].id);
    }
    assert forall|i: int| 0 <= i < gs.len() implies (#[trigger] gs[i]).id < u32::MAX by {
        assert(us[i].id < k);
    }
    assert(group_ids_ok(gs));
    // Layers.
    assert forall|i: int| 0 <= i < ls.layers@.len() implies (#[trigger] ls.layers@[i]).id < u32::MAX by {
        assert(ls.layers@[i].id < ls.next_id);
    }
    assert(layer_ids_ok(ls.layers@));
    // A group of the forest is listed at some position.
    assert forall|x: LayerId| #[trigger] m.contains_key(x) implies exists|j: int|
        0 <= j < gs.len() && (#[trigger] gs[j]).id == x by {
        assert(m[x].id == x && x < ls.next_id);
        let j = choose|j: int| 0 <= j < us.len() && (#[trigger] us[j]).id == x;
        assert(gs[j].id == x);
    }
    assert forall|i: int| 0 <= i < ls.layers@.len() implies root_found(gs, #[trigger] ls.layers@[i].root_group) by {
        let r = ls.layers@[i].root_group;
        assert(ls.layers@[i].id < ls.next_id);
        assert(m.contains_key(r));
        let j = choose|j: int| 0 <= j < gs.len() && (#[trigger] gs[j]).id == r;
        assert(same_group(gs[j], m[gs[j].id]));
    }
    // Links.
    assert forall|i: int| 0 <= i < gs.len() implies (#[trigger] gs[i]).children@.no_duplicates() by {
        assert(same_group(gs[i], m[gs[i].id]));
    }
    assert forall|i: int| 0 <= i < gs.len() implies match (#[trigger] gs[i]).parent {
        Some(p) => p < gs[i].id && exists|j: int|
            #![trigger gs[j]]
            0 <= j < gs.len() && gs[j].id == p && gs[j].children@.contains(gs[i].id),
        None => true,
    } by {
        let id = gs[i].id;
        assert(same_group(gs[i], m[id]));
        assert(m[id].id == id && id < ls.next_id);
        if let Some(p) = gs[i].parent {
            assert(m[id].parent == Some(p));
            assert(m.contains_key(p));
            let j = choose|j: int| 0 <= j < gs.len() && (#[trigger] gs[j]).id == p;
            assert(same_group(gs[j], m[gs[j].id]));
        }
    }
    assert forall|i: int, c: LayerId| 0 <= i < gs.len() && #[trigger] gs[i].children@.contains(c) implies exists|j: int|
        #![trigger gs[j]]
        0 <= j < gs.len() && gs[j].id == c && gs[j].parent == Some(gs[i].id) by {
        let id = gs[i].id;
        assert(same_group(gs[i], m[id]));
        assert(m[id].id == id && id < ls.next_id);
        assert(m[id].children@.contains(c));
        assert(m.contains_key(c));
        let j = choose|j: int| 0 <= j < gs.len() && (#[trigger] gs[j]).id == c;
        assert(same_group(gs[j], m[gs[j].id]));
    }
    assert(links_ok(gs));
    // Edges.
    assert forall|i: int| 0 <= i < gs.len() implies (#[trigger] gs[i]).edges@.no_duplicates() by {
        assert(same_group(gs[i], m[gs[i].id]));
    }
    assert forall|a: int, b: int, e: u32|
        0 <= a < b < gs.len() && #[trigger] gs[a].edges@.contains(e) implies !#[trigger] gs[b].edges@.contains(e) by {
        assert(same_group(gs[a], m[gs[a].id]));
        assert(same_group(gs[b], m[gs[b].id]));
        assert(us[a].id < us[b].id);
        assert(m[gs[a].id].edges@.contains(e));
        if gs[b].edges@.contains(e) {
            assert(m[gs[b].id].edges@.contains(e));
        }
    }
    assert(edges_ok(gs));
}


/// Restoring the layers and the listed groups of a well-formed forest gives
/// back the same layers, groups with the same values under the same ids,
/// and the same group for every edge.
pub proof fn lemma_saved_layers_round_trip(ls: LayerSystem, gs: Seq<Group>, sys: LayerSystem)
    requires
        ls.wf(),
        same_groups(gs, groups_upto(ls.groups@, ls.next_id as int)),
        restored_from(sys, ls.layers@, gs),
    ensures
        sys.layers@ == ls.layers@,
        sys.groups@.dom() == ls.groups@.dom(),
        forall|k: LayerId| #[trigger] sys.groups@.contains_key(k) ==> same_group(sys.groups@[k], ls.groups@[k]),
        sys.edge_to_group@ == ls.edge_to_group@,
{
    let m = ls.groups@;
    let k = ls.next_id as int;
    let us = groups_upto(m, k);
    assert forall|x: LayerId| #[trigger] m.contains_key(x) implies m[x].id == x && x < ls.next_id by {}
    lemma_groups_upto(m, k);
    assert forall|j: int| 0 <= j < gs.len() implies (#[trigger] gs[j]).id == us[j].id && m.contains_key(gs[j].id)
        && same_group(gs[j], m[gs[j].id]) by {
        assert(same_group(gs[j], us[j]));
    }
    assert forall|x: LayerId| #[trigger] sys.groups@.contains_key(x) <==> m.contains_key(x) by {
        if m.contains_key(x) {
            let j = choose|j: int| 0 <= j < us.len() && (#[trigger] us[j]).id == x;
            assert(gs[j].id == x);
        }
        if has_group(gs, x) {
            let j = choose|j: int| 0 <= j < gs.len() && (#[trigger] gs[j]).id == x;
        }
    }
    assert(sys.groups@.dom() =~= m.dom());
    assert forall|x: LayerId| #[trigger] sys.groups@.contains_key(x) implies same_group(sys.groups@[x], m[x]) by {
        let j = choose|j: int| 0 <= j < gs.len() && (#[trigger] gs[j]).id == x;
        assert(sys.groups@[gs[j].id] == gs[j]);
    }
    let em = ls.edge_to_group@;
    assert forall|e: u32| #[trigger] sys.edge_to_group@.contains_key(e) <==> em.contains_key(e) by {
        if sys.edge_to_group@.contains_key(e) {
            let j = choose|j: int| 0 <= j < gs.len() && (#[trigger] gs[j]).edges@.contains(e);
            assert(m[gs[j].id].edges@.contains(e));
        }
        if em.contains_key(e) {
            let x = em[e];
            assert(m.contains_key(x) && m[x].edges@.contains(e));
            let j = choose|j: int| 0 <= j < us.len() && (#[trigger] us[j]).id == x;
            assert(gs[j].id == x);
            assert(gs[j].edges@.contains(e));
        }
    }
    assert forall|e: u32| #[trigger] sys.edge_to_group@.contains_key(e) implies sys.edge_to_group@[e] == em[e] by {
        let j = choose|j: int| 0 <= j < gs.len() && (#[trigger] gs[j]).edges@.contains(e);
        assert(m[gs[j].id].edges@.contains(e));
    }
    assert(sys.edge_to_group@ =~= em);
}

} // verus!
