//! Checks and parameter decoding used by the scripting API.

use vstd::prelude::*;
use crate::graph::{Graph, live_ids, lemma_live_ids_contains};

verus! {

/// Whether edge `id` exists, looked up among the IDs of the existing edges.
pub fn edge_exists<N, E>(g: &Graph<N, E>, id: u32) -> (r: bool)
    requires
        g.wf(),
    ensures
        r == g.edge_live(id as int),
{
    let ids = g.edge_ids();
    proof {
        lemma_live_ids_contains(g.edges@, g.edges@.len() as int, id);
    }
    let mut i: usize = 0;
    while i < ids.len()
        invariant
            i <= ids@.len(),
            ids@.contains(id) == g.edge_live(id as int),
            forall|k: int| 0 <= k < i ==> ids@[k] != id,
        decreases ids@.len() - i,
    {
        if ids[i] == id {
            assert(ids@[i as int] == id);
            assert(ids@.contains(id));
            return true;
        }
        i = i + 1;
    }
    false
}

/// Whether some region among the current ones, given by their keys, has
/// key `key`.
pub fn region_exists(region_keys: &[u32], key: u32) -> (r: bool)
    ensures
        r == region_keys@.contains(key),
{
    let mut i: usize = 0;
    while i < region_keys.len()
        invariant
            i <= region_keys@.len(),
            forall|k: int| 0 <= k < i ==> region_keys@[k] != key,
        decreases region_keys@.len() - i,
    {
        if region_keys[i] == key {
            assert(region_keys@[i as int] == key);
            return true;
        }
        i = i + 1;
    }
    false
}

} // verus!
