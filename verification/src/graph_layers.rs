//! Layer and group management on a network: each operation acts on the
//! layer forest, keeps the network well formed, and advances the geometry
//! version when what is visible changes.

use vstd::prelude::*;
use crate::graph::{Graph, Edge};
use crate::layers::{
    LayerId, LayerSystem, layer_pos, layer_created, group_created, group_removed, edge_assigned,
    layer_removed, Layer, Group,
};

verus! {

/// The layer forests `a` and `b` hold the same layers, groups, edge map
/// and counter.
pub open spec fn same_forest(a: &LayerSystem, b: &LayerSystem) -> bool {
    &&& a.layers@ == b.layers@
    &&& a.groups@ == b.groups@
    &&& a.edge_to_group@ == b.edge_to_group@
    &&& a.next_id == b.next_id
}

/// How many of the ids in `ids` name existing edges of `edges`.
pub open spec fn live_count<E>(edges: Seq<Option<Edge<E>>>, ids: Seq<u32>) -> nat
    decreases ids.len(),
{
    if ids.len() == 0 {
        0
    } else {
        live_count(edges, ids.drop_last()) + if ids.last() < edges.len() && edges[ids.last() as int] is Some {
            1nat
        } else {
            0nat
        }
    }
}

/// The IDs below `n` of the existing edges of `edges` that are visible in
/// `sys`, in increasing order.
pub open spec fn visible_ids<E>(edges: Seq<Option<Edge<E>>>, sys: LayerSystem, n: int) -> Seq<u32>
    decreases n,
{
    if n <= 0 {
        seq![]
    } else if edges[n - 1] is Some && sys.edge_visible((n - 1) as u32) {
        visible_ids(edges, sys, n - 1).push((n - 1) as u32)
    } else {
        visible_ids(edges, sys, n - 1)
    }
}

/// `v` advanced `n` times by one, wrapping around after `u64::MAX`.
pub open spec fn wrapping_advance(v: u64, n: nat) -> int {
    (v + n) % 0x1_0000_0000_0000_0000
}

/// One more wrapping step after `n` steps is `n + 1` steps.
pub(crate) proof fn lemma_wrapping_step(v: u64, n: nat, x: u64)
    requires
        x == wrapping_advance(v, n),
    ensures
        x.wrapping_add(1) == wrapping_advance(v, n + 1),
{
    let m: int = 0x1_0000_0000_0000_0000;
    vstd::arithmetic::div_mod::lemma_add_mod_noop(v + n, 1, m);
    vstd::arithmetic::div_mod::lemma_small_mod(1, m as nat);
    if x + 1 < m {
        vstd::arithmetic::div_mod::lemma_small_mod((x + 1) as nat, m as nat);
    } else {
        vstd::arithmetic::div_mod::lemma_mod_self_0(m);
    }
}

impl<N, E> Graph<N, E> {
    /// Create a new layer; returns its ID.
    pub fn create_layer(&mut self, name: String) -> (id: LayerId)
        requires
            old(self).wf(),
            old(self).layer_system.next_id < u32::MAX - 1,
        ensures
            final(self).wf(),
            layer_created(&old(self).layer_system, &final(self).layer_system, name@, id),
            final(self).nodes@ == old(self).nodes@,
            final(self).edges@ == old(self).edges@,
            final(self).shapes@ == old(self).shapes@,
            final(self).fills@ == old(self).fills@,
            final(self).geom_ver == old(self).geom_ver,
    {
        let id = self.layer_system.create_layer(name);
        proof {
            self.lemma_wf_frame(old(self));
        }
        id
    }

    /// Remove a layer and, when `remove_edges` is set, the edges that were
    /// in its groups; false when no layer has this ID.
    pub fn remove_layer(&mut self, id: LayerId, remove_edges: bool) -> (removed: bool)
        requires
            old(self).wf(),
        ensures
            final(self).wf(),
            removed == (layer_pos(old(self).layer_system.layers@, id) is Some),
            !removed ==> same_forest(&final(self).layer_system, &old(self).layer_system)
                && final(self).edges@ == old(self).edges@ && final(self).geom_ver == old(self).geom_ver,
            removed ==> exists|gone: Seq<u32>| {
                &&& layer_removed(&old(self).layer_system, &final(self).layer_system, id, gone)
                &&& final(self).edges@.len() == old(self).edges@.len()
                &&& forall|i: int| 0 <= i < old(self).edges@.len() ==> #[trigger] final(self).edges@[i] == if remove_edges && gone.contains(i as u32) {
                    None
                } else {
                    old(self).edges@[i]
                }
                &&& final(self).geom_ver == (if remove_edges {
                    wrapping_advance(old(self).geom_ver, live_count(old(self).edges@, gone))
                } else {
                    old(self).geom_ver as int
                })
            },
            final(self).nodes@ == old(self).nodes@,
            final(self).shapes@ == old(self).shapes@,
            final(self).fills@ == old(self).fills@,
    {
        match self.layer_system.remove_layer(id) {
            Some(gone) => {
                proof {
                    self.lemma_wf_frame(old(self));
                }
                let ghost ls1 = self.layer_system;
                if remove_edges {
                    let mut j: usize = 0;
                    while j < gone.len()
                        invariant
                            self.wf(),
                            j <= gone@.len(),
                            gone@.no_duplicates(),
                            forall|e: u32| #[trigger] gone@.contains(e) ==> !ls1.edge_to_group@.contains_key(e),
                            same_forest(&self.layer_system, &ls1),
                            self.nodes@ == old(self).nodes@,
                            self.shapes@ == old(self).shapes@,
                            self.fills@ == old(self).fills@,
                            self.edges@.len() == old(self).edges@.len(),
                            forall|i: int| 0 <= i < old(self).edges@.len() ==> #[trigger] self.edges@[i] == if gone@.take(j as int).contains(i as u32) {
                                None
                            } else {
                                old(self).edges@[i]
                            },
                            self.geom_ver == wrapping_advance(old(self).geom_ver, live_count(old(self).edges@, gone@.take(j as int))),
                        decreases gone@.len() - j,
                    {
                        let eid = gone[j];
                        let ghost before = *self;
                        proof {
                            assert(gone@.contains(eid));
                            assert(!gone@.take(j as int).contains(eid)) by {
                                if gone@.take(j as int).contains(eid) {
                                    let k = choose|k: int| 0 <= k < j && gone@.take(j as int)[k] == eid;
                                    assert(gone@[k] == gone@[j as int]);
                                }
                            }
                        }
                        let was = self.remove_edge(eid);
                        proof {
                            assert(self.layer_system.edge_to_group@ =~= ls1.edge_to_group@);
                            let t = gone@.take(j + 1);
                            assert(t.drop_last() =~= gone@.take(j as int));
                            assert(t.last() == eid);
                            assert(was == (eid < old(self).edges@.len() && old(self).edges@[eid as int] is Some));
                            assert forall|i: int| 0 <= i < old(self).edges@.len() implies #[trigger] self.edges@[i] == if t.contains(i as u32) {
                                None
                            } else {
                                old(self).edges@[i]
                            } by {
                                assert(t.contains(i as u32) <==> gone@.take(j as int).contains(i as u32) || i == eid) by {
                                    if t.contains(i as u32) && i != eid {
                                        let k = choose|k: int| 0 <= k < t.len() && t[k] == i as u32;
                                        assert(gone@.take(j as int)[k] == i as u32);
                                    }
                                    if gone@.take(j as int).contains(i as u32) {
                                        let k = choose|k: int| 0 <= k < j && gone@.take(j as int)[k] == i as u32;
                                        assert(t[k] == i as u32);
                                    }
                                    if i == eid {
                                        assert(t[j as int] == i as u32);
                                    }
                                }
                            }
                            let g0 = old(self).geom_ver;
                            let n0 = live_count(old(self).edges@, gone@.take(j as int));
                            if was {
                                lemma_wrapping_step(g0, n0, before.geom_ver);
                            }
                        }
                        j = j + 1;
                    }
                    proof {
                        assert(gone@.take(j as int) =~= gone@);
                    }
                }
                proof {
                    assert(layer_removed(&old(self).layer_system, &self.layer_system, id, gone@));
                    assert(forall|i: int| 0 <= i < old(self).edges@.len() ==> #[trigger] self.edges@[i] == if remove_edges && gone@.contains(i as u32) {
                        None
                    } else {
                        old(self).edges@[i]
                    });
                }
                true
            },
            None => {
                proof {
                    self.lemma_wf_frame(old(self));
                }
                false
            },
        }
    }

    /// Rename a layer; false when no layer has this ID.
    pub fn rename_layer(&mut self, id: LayerId, name: String) -> (found: bool)
        requires
            old(self).wf(),
        ensures
            final(self).wf(),
            found == (layer_pos(old(self).layer_system.layers@, id) is Some),
            found ==> final(self).layer_system.layers@ == old(self).layer_system.layers@.update(
                layer_pos(old(self).layer_system.layers@, id)->0,
                Layer { name, ..old(self).layer_system.layers@[layer_pos(old(self).layer_system.layers@, id)->0] },
            ),
            !found ==> final(self).layer_system.layers@ == old(self).layer_system.layers@,
            final(self).layer_system.groups@ == old(self).layer_system.groups@,
            final(self).layer_system.edge_to_group@ == old(self).layer_system.edge_to_group@,
            final(self).layer_system.next_id == old(self).layer_system.next_id,
            final(self).nodes@ == old(self).nodes@,
            final(self).edges@ == old(self).edges@,
            final(self).shapes@ == old(self).shapes@,
            final(self).fills@ == old(self).fills@,
            final(self).geom_ver == old(self).geom_ver,
    {
        let found = self.layer_system.rename_layer(id, name);
        proof {
            self.lemma_wf_frame(old(self));
        }
        found
    }

    /// Show or hide a layer; the geometry version advances when the layer
    /// exists. False when no layer has this ID.
    pub fn set_layer_visibility(&mut self, id: LayerId, visible: bool) -> (found: bool)
        requires
            old(self).wf(),
        ensures
            final(self).wf(),
            found == (layer_pos(old(self).layer_system.layers@, id) is Some),
            found ==> final(self).layer_system.layers@ == old(self).layer_system.layers@.update(
                layer_pos(old(self).layer_system.layers@, id)->0,
                Layer { visible, ..old(self).layer_system.layers@[layer_pos(old(self).layer_system.layers@, id)->0] },
            ),
            !found ==> final(self).layer_system.layers@ == old(self).layer_system.layers@,
            final(self).layer_system.groups@ == old(self).layer_system.groups@,
            final(self).layer_system.edge_to_group@ == old(self).layer_system.edge_to_group@,
            final(self).layer_system.next_id == old(self).layer_system.next_id,
            final(self).nodes@ == old(self).nodes@,
            final(self).edges@ == old(self).edges@,
            final(self).shapes@ == old(self).shapes@,
            final(self).fills@ == old(self).fills@,
            final(self).geom_ver == if found {
                old(self).geom_ver.wrapping_add(1)
            } else {
                old(self).geom_ver
            },
    {
        if self.layer_system.set_layer_visibility(id, visible) {
            self.bump();
            proof {
                self.lemma_wf_frame(old(self));
            }
            true
        } else {
            proof {
                self.lemma_wf_frame(old(self));
            }
            false
        }
    }

    /// Set a layer's z-index; false when no layer has this ID.
    pub fn set_layer_z_index(&mut self, id: LayerId, z: i32) -> (found: bool)
        requires
            old(self).wf(),
        ensures
            final(self).wf(),
            found == (layer_pos(old(self).layer_system.layers@, id) is Some),
            found ==> final(self).layer_system.layers@ == old(self).layer_system.layers@.update(
                layer_pos(old(self).layer_system.layers@, id)->0,
                Layer { z_index: z, ..old(self).layer_system.layers@[layer_pos(old(self).layer_system.layers@, id)->0] },
            ),
            !found ==> final(self).layer_system.layers@ == old(self).layer_system.layers@,
            final(self).layer_system.groups@ == old(self).layer_system.groups@,
            final(self).layer_system.edge_to_group@ == old(self).layer_system.edge_to_group@,
            final(self).layer_system.next_id == old(self).layer_system.next_id,
            final(self).nodes@ == old(self).nodes@,
            final(self).edges@ == old(self).edges@,
            final(self).shapes@ == old(self).shapes@,
            final(self).fills@ == old(self).fills@,
            final(self).geom_ver == old(self).geom_ver,
    {
        let found = self.layer_system.set_layer_z_index(id, z);
        proof {
            self.lemma_wf_frame(old(self));
        }
        found
    }

    /// Create a group within a parent group; None when the parent does not exist.
    pub fn create_group(&mut self, name: String, parent_id: LayerId) -> (r: Option<LayerId>)
        requires
            old(self).wf(),
            old(self).layer_system.next_id < u32::MAX,
        ensures
            final(self).wf(),
            group_created(&old(self).layer_system, &final(self).layer_system, name@, parent_id, r),
            final(self).nodes@ == old(self).nodes@,
            final(self).edges@ == old(self).edges@,
            final(self).shapes@ == old(self).shapes@,
            final(self).fills@ == old(self).fills@,
            final(self).geom_ver == old(self).geom_ver,
    {
        let r = self.layer_system.create_group(name, parent_id);
        proof {
            self.lemma_wf_frame(old(self));
        }
        r
    }

    /// Remove a group; its edges and child groups move to its parent. False
    /// for root groups and unknown IDs.
    pub fn remove_group(&mut self, id: LayerId) -> (removed: bool)
        requires
            old(self).wf(),
        ensures
            final(self).wf(),
            removed == (old(self).layer_system.groups@.contains_key(id)
                && old(self).layer_system.groups@[id].parent is Some),
            !removed ==> same_forest(&final(self).layer_system, &old(self).layer_system),
            removed ==> group_removed(
                &old(self).layer_system,
                &final(self).layer_system,
                id,
                old(self).layer_system.groups@[id].parent->0,
            ),
            final(self).nodes@ == old(self).nodes@,
            final(self).edges@ == old(self).edges@,
            final(self).shapes@ == old(self).shapes@,
            final(self).fills@ == old(self).fills@,
            final(self).geom_ver == old(self).geom_ver,
    {
        let removed = self.layer_system.remove_group(id);
        proof {
            self.lemma_wf_frame(old(self));
        }
        removed
    }

    /// Rename a group; false when no group has this ID.
    pub fn rename_group(&mut self, id: LayerId, name: String) -> (found: bool)
        requires
            old(self).wf(),
        ensures
            final(self).wf(),
            found == old(self).layer_system.groups@.contains_key(id),
            found ==> final(self).layer_system.groups@ == old(self).layer_system.groups@.insert(
                id,
                Group { name, ..old(self).layer_system.groups@[id] },
            ),
            !found ==> final(self).layer_system.groups@ == old(self).layer_system.groups@,
            final(self).layer_system.layers@ == old(self).layer_system.layers@,
            final(self).layer_system.edge_to_group@ == old(self).layer_system.edge_to_group@,
            final(self).layer_system.next_id == old(self).layer_system.next_id,
            final(self).nodes@ == old(self).nodes@,
            final(self).edges@ == old(self).edges@,
            final(self).shapes@ == old(self).shapes@,
            final(self).fills@ == old(self).fills@,
            final(self).geom_ver == old(self).geom_ver,
    {
        let found = self.layer_system.rename_group(id, name);
        proof {
            self.lemma_wf_frame(old(self));
        }
        found
    }

    /// Show or hide a group; the geometry version advances when the group
    /// exists. False when no group has this ID.
    pub fn set_group_visibility(&mut self, id: LayerId, visible: bool) -> (found: bool)
        requires
            old(self).wf(),
        ensures
            final(self).wf(),
            found == old(self).layer_system.groups@.contains_key(id),
            found ==> final(self).layer_system.groups@ == old(self).layer_system.groups@.insert(
                id,
                Group { visible, ..old(self).layer_system.groups@[id] },
            ),
            !found ==> final(self).layer_system.groups@ == old(self).layer_system.groups@,
            final(self).layer_system.layers@ == old(self).layer_system.layers@,
            final(self).layer_system.edge_to_group@ == old(self).layer_system.edge_to_group@,
            final(self).layer_system.next_id == old(self).layer_system.next_id,
            final(self).nodes@ == old(self).nodes@,
            final(self).edges@ == old(self).edges@,
            final(self).shapes@ == old(self).shapes@,
            final(self).fills@ == old(self).fills@,
            final(self).geom_ver == if found {
                old(self).geom_ver.wrapping_add(1)
            } else {
                old(self).geom_ver
            },
    {
        if self.layer_system.set_group_visibility(id, visible) {
            self.bump();
            proof {
                self.lemma_wf_frame(old(self));
            }
            true
        } else {
            proof {
                self.lemma_wf_frame(old(self));
            }
            false
        }
    }

    /// Put an edge into a group (it leaves the group it was in first); false,
    /// with the edge left without a group, when no group has this ID.
    pub fn add_edge_to_group(&mut self, edge_id: u32, group_id: LayerId) -> (added: bool)
        requires
            old(self).wf(),
        ensures
            final(self).wf(),
            added == old(self).layer_system.groups@.contains_key(group_id),
            edge_assigned(&old(self).layer_system, &final(self).layer_system, edge_id, group_id),
            final(self).nodes@ == old(self).nodes@,
            final(self).edges@ == old(self).edges@,
            final(self).shapes@ == old(self).shapes@,
            final(self).fills@ == old(self).fills@,
            final(self).geom_ver == old(self).geom_ver,
    {
        let added = self.layer_system.add_edge_to_group(edge_id, group_id);
        proof {
            self.lemma_wf_frame(old(self));
        }
        added
    }

    /// The group containing an edge.
    pub fn get_edge_group(&self, edge_id: u32) -> (r: Option<LayerId>)
        ensures
            r == (if self.layer_system.edge_to_group@.contains_key(edge_id) {
                Some(self.layer_system.edge_to_group@[edge_id])
            } else {
                None
            }),
    {
        self.layer_system.get_edge_group(edge_id)
    }

    /// The layer containing an edge.
    pub fn get_edge_layer(&self, edge_id: u32) -> (r: Option<LayerId>)
        requires
            self.wf(),
        ensures
            r == self.layer_system.edge_layer(edge_id),
    {
        self.layer_system.get_edge_layer(edge_id)
    }

    /// Whether an edge is visible, given the visibility of its groups and layer.
    pub fn is_edge_visible(&self, edge_id: u32) -> (r: bool)
        requires
            self.wf(),
        ensures
            r == self.layer_system.edge_visible(edge_id),
    {
        self.layer_system.is_edge_visible(edge_id)
    }

    /// The IDs of the existing edges that are visible, in increasing order.
    pub fn get_visible_edges(&self) -> (ids: Vec<u32>)
        requires
            self.wf(),
        ensures
            ids@ == visible_ids(self.edges@, self.layer_system, self.edges@.len() as int),
    {
        let mut ids: Vec<u32> = Vec::new();
        let mut i: usize = 0;
        while i < self.edges.len()
            invariant
                self.wf(),
                i <= self.edges@.len(),
                ids@ == visible_ids(self.edges@, self.layer_system, i as int),
            decreases self.edges@.len() - i,
        {
            if self.edges[i].is_some() && self.layer_system.is_edge_visible(i as u32) {
                ids.push(i as u32);
            }
            i = i + 1;
        }
        ids
    }

    /// The default layer's root group, which new edges join.
    pub fn default_group(&self) -> (r: Option<LayerId>)
        ensures
            r == (if self.layer_system.layers@.len() > 0 {
                Some(self.layer_system.layers@[0].root_group)
            } else {
                None
            }),
    {
        self.layer_system.default_group()
    }
}

} // verus!
