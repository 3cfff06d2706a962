//! Shape inference: closed loops of edges that no shape uses yet become
//! closed shapes.
//!
//! A loop is searched for from each edge in turn by a depth-first search
//! over simple paths, bounded by a number of steps (the square of the
//! number of edge slots).

use vstd::prelude::*;
use crate::graph::{Graph, Edge, touches};
use crate::model::{FillRule, Shape};

verus! {

/// The node reached by leaving node `n` along edge `e`.
pub open spec fn step_from<E>(e: Edge<E>, n: u32) -> u32 {
    if e.a == n {
        e.b
    } else {
        e.a
    }
}

/// The node reached by walking the edges `path` from node `start`.
pub open spec fn walk_end<E>(edges: Seq<Option<Edge<E>>>, start: u32, path: Seq<u32>) -> u32
    decreases path.len(),
{
    if path.len() == 0 {
        start
    } else {
        step_from(edges[path.last() as int]->0, walk_end(edges, start, path.drop_last()))
    }
}

/// Walking the edges `path` from node `start` is possible: each edge exists
/// and touches the node the walk has reached before it.
pub open spec fn walk_ok<E>(edges: Seq<Option<Edge<E>>>, start: u32, path: Seq<u32>) -> bool
    decreases path.len(),
{
    if path.len() == 0 {
        true
    } else {
        &&& walk_ok(edges, start, path.drop_last())
        &&& path.last() < edges.len()
        &&& edges[path.last() as int] is Some
        &&& touches(edges[path.last() as int]->0, walk_end(edges, start, path.drop_last()))
    }
}

/// `path` is a closed trail from node `start` back to it: at least two
/// edges, each used once, each leaving the node the walk has reached.
pub open spec fn is_cycle<E>(edges: Seq<Option<Edge<E>>>, start: u32, path: Seq<u32>) -> bool {
    &&& path.len() > 1
    &&& path.no_duplicates()
    &&& walk_ok(edges, start, path)
    &&& walk_end(edges, start, path) == start
}

/// Edge `e` is part of some existing shape.
pub open spec fn in_some_shape(shapes: Seq<Option<Shape>>, e: u32) -> bool {
    exists|s: int, k: int|
        0 <= s < shapes.len() && shapes[s] is Some && 0 <= k < (#[trigger] shapes[s]->0).edges@.len()
            && (shapes[s]->0).edges@[k] == e
}

/// `adj[n]` lists, in edge order, a pair (edge, other end) for each
/// existing edge of `edges` that touches node `n`.
pub open spec fn adjacency_ok<E>(edges: Seq<Option<Edge<E>>>, adj: Seq<Vec<(u32, u32)>>) -> bool {
    forall|n: int, j: int|
        0 <= n < adj.len() && 0 <= j < adj[n]@.len() ==> {
            let (eid, other) = #[trigger] adj[n]@[j];
            &&& eid < edges.len()
            &&& edges[eid as int] is Some
            &&& touches(edges[eid as int]->0, n as u32)
            &&& other == step_from(edges[eid as int]->0, n as u32)
            &&& other < adj.len()
        }
}

/// The (edge, other end) pairs of the existing edges among the first `k`
/// of `edges` that touch node `n`, in edge order.
pub open spec fn adj_list<E>(edges: Seq<Option<Edge<E>>>, n: u32, k: int) -> Seq<(u32, u32)>
    decreases k,
{
    if k <= 0 {
        seq![]
    } else if edges[k - 1] is Some && touches(edges[k - 1]->0, n) {
        adj_list(edges, n, k - 1).push(((k - 1) as u32, step_from(edges[k - 1]->0, n)))
    } else {
        adj_list(edges, n, k - 1)
    }
}

/// `used[e]` tells whether edge `e` is part of a shape of `shapes`.
pub open spec fn shape_flags(shapes: Seq<Option<Shape>>, n_edges: int) -> Seq<bool> {
    Seq::new(n_edges as nat, |e: int| in_some_shape(shapes, e as u32))
}

/// The first position at or after `from` in `nb` whose edge is not on
/// `path` and not marked in `used`.
pub open spec fn next_cand(nb: Seq<(u32, u32)>, from: int, path: Seq<u32>, used: Seq<bool>) -> Option<int>
    decreases nb.len() - from,
{
    if from < 0 || from >= nb.len() {
        None
    } else if !path.contains(nb[from].0) && !used[nb[from].0 as int] {
        Some(from)
    } else {
        next_cand(nb, from + 1, path, used)
    }
}

/// A search state as a value: the node reached, the edges walked, the
/// nodes left behind, the next neighbor to try.
pub type SearchState = (u32, Seq<u32>, Seq<u32>, int);

/// The depth-first search for a trail back to `start_node`, from the
/// states on `stack` (the last one on top), with at most `fuel` states
/// taken from the stack. A state at `start_node` with more than one edge
/// is the trail found; a state at a node it already left is dropped;
/// otherwise the state is put back to try its next neighbor later, and the
/// step to the first neighbor whose edge is neither walked nor marked goes
/// on top.
pub open spec fn search<E>(
    edges: Seq<Option<Edge<E>>>,
    used: Seq<bool>,
    start_node: u32,
    stack: Seq<SearchState>,
    fuel: nat,
) -> Option<Seq<u32>>
    decreases fuel,
{
    if stack.len() == 0 || fuel == 0 {
        None
    } else {
        let f = stack.last();
        let rest = stack.drop_last();
        if f.0 == start_node && f.1.len() > 1 {
            Some(f.1)
        } else if f.2.contains(f.0) {
            search(edges, used, start_node, rest, (fuel - 1) as nat)
        } else {
            let nb = adj_list(edges, f.0, edges.len() as int);
            match next_cand(nb, f.3, f.1, used) {
                None => search(edges, used, start_node, rest, (fuel - 1) as nat),
                Some(i) => search(
                    edges,
                    used,
                    start_node,
                    rest.push((f.0, f.1, f.2, i + 1)).push((nb[i].1, f.1.push(nb[i].0), f.2.push(f.0), 0)),
                    (fuel - 1) as nat,
                ),
            }
        }
    }
}

/// The trail that the search from edge `start_edge` finds back to
/// `start_node`, taking at most (number of edge slots)² states.
pub open spec fn trail_from<E>(edges: Seq<Option<Edge<E>>>, used: Seq<bool>, start_edge: u32, start_node: u32) -> Option<
    Seq<u32>,
> {
    if start_edge >= edges.len() || edges[start_edge as int] is None {
        None
    } else {
        let e = edges[start_edge as int]->0;
        let first = if e.a == start_node { e.b } else { e.a };
        search(
            edges,
            used,
            start_node,
            seq![(first, seq![start_edge], seq![start_node], 0int)],
            (edges.len() * edges.len()) as nat,
        )
    }
}

/// Edge `e` lies on one of `loops`.
pub open spec fn on_a_loop(loops: Seq<Seq<u32>>, e: u32) -> bool {
    exists|j: int, k: int| 0 <= j < loops.len() && 0 <= k < loops[j].len() && #[trigger] loops[j][k] == e
}

/// The loops found from the edges below `s`: each existing edge, in
/// increasing order, that is not marked in `used` and lies on no loop found
/// before starts a search back to its first end.
pub open spec fn found_loops<E>(edges: Seq<Option<Edge<E>>>, used: Seq<bool>, s: int) -> Seq<Seq<u32>>
    decreases s,
{
    if s <= 0 {
        seq![]
    } else {
        let before = found_loops(edges, used, s - 1);
        let t = s - 1;
        if edges[t] is Some && !used[t] && !on_a_loop(before, t as u32) {
            match trail_from(edges, used, t as u32, (edges[t]->0).a) {
                Some(p) => before.push(p),
                None => before,
            }
        } else {
            before
        }
    }
}

/// The loops that shape inference finds in `edges`, given the shapes
/// `shapes` that exist.
pub open spec fn inferred_loops<E>(edges: Seq<Option<Edge<E>>>, shapes: Seq<Option<Shape>>) -> Seq<Seq<u32>> {
    found_loops(edges, shape_flags(shapes, edges.len() as int), edges.len() as int)
}

/// A walk that is possible passes only through existing edges.
pub proof fn lemma_walk_edges_exist<E>(edges: Seq<Option<Edge<E>>>, start: u32, path: Seq<u32>)
    requires
        walk_ok(edges, start, path),
    ensures
        forall|k: int| 0 <= k < path.len() ==> #[trigger] path[k] < edges.len() && edges[path[k] as int] is Some,
    decreases path.len(),
{
    if path.len() > 0 {
        lemma_walk_edges_exist(edges, start, path.drop_last());
        assert forall|k: int| 0 <= k < path.len() implies #[trigger] path[k] < edges.len() && edges[path[k] as int] is Some by {
            if k < path.len() - 1 {
                assert(path.drop_last()[k] == path[k]);
            }
        }
    }
}

/// A search state: the node reached, the edges walked from the start
/// node, the nodes left behind, and the next neighbor to try.
type Frame = (u32, Vec<u32>, Vec<u32>, usize);

/// A search state walks from `start_node` along `start_edge` first,
/// through existing edges used once each and, after the first, in no shape.
spec fn frame_ok<E>(
    edges: Seq<Option<Edge<E>>>,
    n_nodes: int,
    used: Seq<bool>,
    start_edge: u32,
    start_node: u32,
    f: Frame,
) -> bool {
    let path = f.1@;
    &&& (f.0 as int) < n_nodes
    &&& path.len() >= 1
    &&& path[0] == start_edge
    &&& path.no_duplicates()
    &&& walk_ok(edges, start_node, path)
    &&& walk_end(edges, start_node, path) == f.0
    &&& forall|k: int| 1 <= k < path.len() ==> !used[#[trigger] path[k] as int]
}

/// The value of a search state.
spec fn state_of(f: Frame) -> SearchState {
    (f.0, f.1@, f.2@, f.3 as int)
}

/// Whether `x` occurs in `v`.
fn vec_contains(v: &Vec<u32>, x: u32) -> (r: bool)
    ensures
        r == v@.contains(x),
{
    let mut i: usize = 0;
    while i < v.len()
        invariant
            i <= v@.len(),
            forall|k: int| 0 <= k < i ==> v@[k] != x,
        decreases v@.len() - i,
    {
        if v[i] == x {
            assert(v@[i as int] == x);
            return true;
        }
        i = i + 1;
    }
    false
}

/// The first position at or after `from` in `neighbors` whose edge is not
/// on `path` and in no shape.
fn next_candidate(neighbors: &Vec<(u32, u32)>, from: usize, path: &Vec<u32>, used: &Vec<bool>) -> (r: Option<usize>)
    requires
        forall|j: int| 0 <= j < neighbors@.len() ==> (#[trigger] neighbors@[j]).0 < used@.len(),
    ensures
        r is None <==> next_cand(neighbors@, from as int, path@, used@) is None,
        r matches Some(i) ==> next_cand(neighbors@, from as int, path@, used@) == Some(i as int),
        r matches Some(i) ==> from <= i < neighbors@.len() && !path@.contains(neighbors@[i as int].0)
            && !used@[neighbors@[i as int].0 as int],
{
    let mut i: usize = from;
    while i < neighbors.len()
        invariant
            from <= i,
            forall|j: int| 0 <= j < neighbors@.len() ==> (#[trigger] neighbors@[j]).0 < used@.len(),
            next_cand(neighbors@, from as int, path@, used@) == next_cand(neighbors@, i as int, path@, used@),
        decreases neighbors@.len() - i,
    {
        let (eid, _other) = neighbors[i];
        if !vec_contains(path, eid) && !used[eid as usize] {
            return Some(i);
        }
        i = i + 1;
    }
    None
}

fn push_neighbor(adj: &mut Vec<Vec<(u32, u32)>>, n: usize, entry: (u32, u32))
    requires
        n < old(adj)@.len(),
    ensures
        final(adj)@.len() == old(adj)@.len(),
        final(adj)@[n as int]@ == old(adj)@[n as int]@.push(entry),
        forall|m: int| 0 <= m < old(adj)@.len() && m != n ==> #[trigger] final(adj)@[m] == old(adj)@[m],
{
    adj[n].push(entry);
}

/// Edge `e` is part of one of the first `s` shapes, or is among the first
/// `k` edges of shape `s`.
spec fn in_shape_prefix(shapes: Seq<Option<Shape>>, s: int, k: int, e: u32) -> bool {
    exists|t: int, j: int|
        0 <= t <= s && t < shapes.len() && shapes[t] is Some && 0 <= j < (#[trigger] shapes[t]->0).edges@.len()
            && (t < s || j < k) && (shapes[t]->0).edges@[j] == e
}

impl<N, E> Graph<N, E> {
    /// For each node, the (edge, other end) pairs of the existing edges that
    /// touch it, in edge order.
    fn build_adjacency(&self) -> (adj: Vec<Vec<(u32, u32)>>)
        requires
            self.wf(),
        ensures
            adj@.len() == self.nodes@.len(),
            adjacency_ok(self.edges@, adj@),
            forall|n: int| 0 <= n < adj@.len() ==> (#[trigger] adj@[n])@ == adj_list(self.edges@, n as u32, self.edges@.len() as int),
    {
        let mut adj: Vec<Vec<(u32, u32)>> = Vec::new();
        let mut n: usize = 0;
        while n < self.nodes.len()
            invariant
                n <= self.nodes@.len(),
                adj@.len() == n,
                forall|m: int| 0 <= m < n ==> (#[trigger] adj@[m])@.len() == 0,
            decreases self.nodes@.len() - n,
        {
            adj.push(Vec::new());
            n = n + 1;
        }
        let mut eid: usize = 0;
        while eid < self.edges.len()
            invariant
                self.wf(),
                eid <= self.edges@.len(),
                adj@.len() == self.nodes@.len(),
                adjacency_ok(self.edges@, adj@),
                forall|n: int| 0 <= n < adj@.len() ==> (#[trigger] adj@[n])@ == adj_list(self.edges@, n as u32, eid as int),
            decreases self.edges@.len() - eid,
        {
            match &self.edges[eid] {
                Some(e) => {
                    assert(self.edge_live(eid as int));
                    let ghost a0 = adj@;
                    push_neighbor(&mut adj, e.a as usize, (eid as u32, e.b));
                    let ghost a1 = adj@;
                    push_neighbor(&mut adj, e.b as usize, (eid as u32, e.a));
                    proof {
                        assert forall|n: int, j: int|
                            0 <= n < adj@.len() && 0 <= j < adj@[n]@.len() implies {
                                let (x, other) = #[trigger] adj@[n]@[j];
                                &&& x < self.edges@.len()
                                &&& self.edges@[x as int] is Some
                                &&& touches(self.edges@[x as int]->0, n as u32)
                                &&& other == step_from(self.edges@[x as int]->0, n as u32)
                                &&& other < adj@.len()
                            } by {
                            if n == e.b {
                                if j < a1[n]@.len() {
                                    if n == e.a {
                                    } else {
                                        assert(a1[n]@[j] == a0[n]@[j]);
                                    }
                                }
                            } else if n == e.a {
                                assert(adj@[n] == a1[n]);
                            } else {
                                assert(adj@[n] == a1[n]);
                                assert(a1[n] == a0[n]);
                            }
                        }
                        assert forall|n: int| 0 <= n < adj@.len() implies (#[trigger] adj@[n])@ == adj_list(self.edges@, n as u32, eid + 1) by {
                            if n == e.a {
                                assert(adj@[n] == a1[n]);
                            } else if n == e.b {
                            } else {
                                assert(adj@[n] == a1[n]);
                                assert(a1[n] == a0[n]);
                                assert(!touches(*e, n as u32));
                            }
                        }
                    }
                },
                None => {
                    assert forall|n: int| 0 <= n < adj@.len() implies (#[trigger] adj@[n])@ == adj_list(self.edges@, n as u32, eid + 1) by {}
                },
            }
            eid = eid + 1;
        }
        adj
    }

    /// `used[e]` tells whether edge `e` is part of an existing shape.
    fn shape_edge_flags(&self) -> (used: Vec<bool>)
        requires
            self.wf(),
        ensures
            used@.len() == self.edges@.len(),
            forall|e: int| 0 <= e < used@.len() ==> #[trigger] used@[e] == in_some_shape(self.shapes@, e as u32),
    {
        let mut used: Vec<bool> = Vec::new();
        let mut i: usize = 0;
        while i < self.edges.len()
            invariant
                i <= self.edges@.len(),
                used@.len() == i,
                forall|e: int| 0 <= e < i ==> !(#[trigger] used@[e]),
            decreases self.edges@.len() - i,
        {
            used.push(false);
            i = i + 1;
        }
        let mut s: usize = 0;
        while s < self.shapes.len()
            invariant
                self.wf(),
                s <= self.shapes@.len(),
                used@.len() == self.edges@.len(),
                forall|e: int| 0 <= e < used@.len() ==> #[trigger] used@[e] == in_shape_prefix(self.shapes@, s as int, 0, e as u32),
            decreases self.shapes@.len() - s,
        {
            match &self.shapes[s] {
                Some(shape) => {
                    assert(self.shape_live(s as int));
                    let mut k: usize = 0;
                    while k < shape.edges.len()
                        invariant
                            self.wf(),
                            s < self.shapes@.len(),
                            self.shapes@[s as int] == Some(*shape),
                            k <= shape.edges@.len(),
                            used@.len() == self.edges@.len(),
                            forall|e: int| 0 <= e < used@.len() ==> #[trigger] used@[e] == in_shape_prefix(self.shapes@, s as int, k as int, e as u32),
                        decreases shape.edges@.len() - k,
                    {
                        let eid = shape.edges[k];
                        let ghost u0 = used@;
                        if (eid as usize) < used.len() {
                            used.set(eid as usize, true);
                        }
                        proof {
                            assert forall|e: int| 0 <= e < used@.len() implies #[trigger] used@[e] == in_shape_prefix(self.shapes@, s as int, k + 1, e as u32) by {
                                if e == eid {
                                    assert((self.shapes@[s as int]->0).edges@[k as int] == eid);
                                } else {
                                    assert(used@[e] == u0[e]);
                                    if in_shape_prefix(self.shapes@, s as int, k + 1, e as u32) {
                                        let (t, j) = choose|t: int, j: int|
                                            0 <= t <= s && t < self.shapes@.len() && self.shapes@[t] is Some && 0 <= j < (#[trigger] self.shapes@[t]->0).edges@.len()
                                                && (t < s || j < k + 1) && (self.shapes@[t]->0).edges@[j] == e as u32;
                                        assert(in_shape_prefix(self.shapes@, s as int, k as int, e as u32));
                                    }
                                }
                            }
                        }
                        k = k + 1;
                    }
                    proof {
                        assert forall|e: int| 0 <= e < used@.len() implies #[trigger] used@[e] == in_shape_prefix(self.shapes@, s + 1, 0, e as u32) by {
                            if in_shape_prefix(self.shapes@, s + 1, 0, e as u32) {
                                let (t, j) = choose|t: int, j: int|
                                    0 <= t <= s + 1 && t < self.shapes@.len() && self.shapes@[t] is Some && 0 <= j < (#[trigger] self.shapes@[t]->0).edges@.len()
                                        && (t < s + 1 || j < 0) && (self.shapes@[t]->0).edges@[j] == e as u32;
                                assert(in_shape_prefix(self.shapes@, s as int, k as int, e as u32));
                            }
                            if in_shape_prefix(self.shapes@, s as int, k as int, e as u32) {
                                let (t, j) = choose|t: int, j: int|
                                    0 <= t <= s && t < self.shapes@.len() && self.shapes@[t] is Some && 0 <= j < (#[trigger] self.shapes@[t]->0).edges@.len()
                                        && (t < s || j < k) && (self.shapes@[t]->0).edges@[j] == e as u32;
                                assert(in_shape_prefix(self.shapes@, s + 1, 0, e as u32));
                            }
                        }
                    }
                },
                None => {
                    proof {
                        assert forall|e: int| 0 <= e < used@.len() implies #[trigger] used@[e] == in_shape_prefix(self.shapes@, s + 1, 0, e as u32) by {
                            if in_shape_prefix(self.shapes@, s + 1, 0, e as u32) {
                                let (t, j) = choose|t: int, j: int|
                                    0 <= t <= s + 1 && t < self.shapes@.len() && self.shapes@[t] is Some && 0 <= j < (#[trigger] self.shapes@[t]->0).edges@.len()
                                        && (t < s + 1 || j < 0) && (self.shapes@[t]->0).edges@[j] == e as u32;
                                assert(in_shape_prefix(self.shapes@, s as int, 0, e as u32));
                            }
                        }
                    }
                },
            }
            s = s + 1;
        }
        proof {
            assert forall|e: int| 0 <= e < used@.len() implies #[trigger] used@[e] == in_some_shape(self.shapes@, e as u32) by {
                if in_some_shape(self.shapes@, e as u32) {
                    let (t, j) = choose|t: int, j: int|
                        0 <= t < self.shapes@.len() && self.shapes@[t] is Some && 0 <= j < (#[trigger] self.shapes@[t]->0).edges@.len()
                            && (self.shapes@[t]->0).edges@[j] == e as u32;
                    assert(in_shape_prefix(self.shapes@, s as int, 0, e as u32));
                }
                if in_shape_prefix(self.shapes@, s as int, 0, e as u32) {
                    let (t, j) = choose|t: int, j: int|
                        0 <= t <= s && t < self.shapes@.len() && self.shapes@[t] is Some && 0 <= j < (#[trigger] self.shapes@[t]->0).edges@.len()
                            && (t < s || j < 0) && (self.shapes@[t]->0).edges@[j] == e as u32;
                    assert(in_some_shape(self.shapes@, e as u32));
                }
            }
        }
        used
    }
}


impl<N, E> Graph<N, E> {
    /// Search for a closed trail that leaves `start_node` along `start_edge`
    /// and comes back to it through edges that no shape uses. Depth-first
    /// over simple paths, trying neighbors in adjacency order, for at most
    /// (number of edge slots)² steps; None when the edge does not exist or
    /// no trail was found within that bound.
    fn find_cycle_from(&self, start_edge: u32, start_node: u32, adj: &Vec<Vec<(u32, u32)>>, used: &Vec<bool>) -> (r: Option<Vec<u32>>)
        requires
            self.wf(),
            adj@.len() == self.nodes@.len(),
            adjacency_ok(self.edges@, adj@),
            used@.len() == self.edges@.len(),
            self.edge_live(start_edge as int) ==> touches(self.edges@[start_edge as int]->0, start_node),
            forall|n: int| 0 <= n < adj@.len() ==> (#[trigger] adj@[n])@ == adj_list(self.edges@, n as u32, self.edges@.len() as int),
        ensures
            r is Some <==> trail_from(self.edges@, used@, start_edge, start_node) is Some,
            r matches Some(path) ==> trail_from(self.edges@, used@, start_edge, start_node) == Some(path@),
            r matches Some(path) ==> {
                &&& is_cycle(self.edges@, start_node, path@)
                &&& path@[0] == start_edge
                &&& forall|k: int| 1 <= k < path@.len() ==> !used@[#[trigger] path@[k] as int]
            },
    {
        let edge = match self.get_edge(start_edge) {
            Some(e) => e,
            None => return None,
        };
        let first_node = if edge.a == start_node { edge.b } else { edge.a };
        assert(self.node_live(edge.a as int) && self.node_live(edge.b as int));
        let mut stack: Vec<Frame> = Vec::new();
        let mut initial_visited: Vec<u32> = Vec::new();
        initial_visited.push(start_node);
        let mut first_path: Vec<u32> = Vec::new();
        first_path.push(start_edge);
        proof {
            assert(first_path@.drop_last() =~= Seq::<u32>::empty());
            assert(walk_ok(self.edges@, start_node, Seq::<u32>::empty()));
            assert(walk_end(self.edges@, start_node, Seq::<u32>::empty()) == start_node);
            assert(walk_ok(self.edges@, start_node, first_path@));
        }
        stack.push((first_node, first_path, initial_visited, 0));
        proof {
            assert(stack@.map_values(|f: Frame| state_of(f)) =~= seq![(first_node, seq![start_edge], seq![start_node], 0int)]);
        }

        let n = self.edges.len() as u64;
        assert(n * n <= 0xFFFF_FFFE_0000_0001u64) by (nonlinear_arith)
            requires
                n <= 0xFFFF_FFFFu64,
        ;
        let max_iterations: u64 = n * n;
        let mut iterations: u64 = 0;
        loop
            invariant
                self.wf(),
                adj@.len() == self.nodes@.len(),
                adjacency_ok(self.edges@, adj@),
                used@.len() == self.edges@.len(),
                iterations <= max_iterations,
                max_iterations <= 0xFFFF_FFFE_0000_0001u64,
                max_iterations == self.edges@.len() * self.edges@.len(),
                forall|n: int| 0 <= n < adj@.len() ==> (#[trigger] adj@[n])@ == adj_list(self.edges@, n as u32, self.edges@.len() as int),
                search(
                    self.edges@,
                    used@,
                    start_node,
                    stack@.map_values(|f: Frame| state_of(f)),
                    (max_iterations - iterations) as nat,
                ) == trail_from(self.edges@, used@, start_edge, start_node),
                forall|i: int| 0 <= i < stack@.len() ==> frame_ok(
                    self.edges@,
                    self.nodes@.len() as int,
                    used@,
                    start_edge,
                    start_node,
                    #[trigger] stack@[i],
                ),
            ensures
                trail_from(self.edges@, used@, start_edge, start_node) is None,
            decreases max_iterations - iterations,
        {
            let ghost st0 = stack@;
            let popped = stack.pop();
            let frame = match popped {
                Some(f) => f,
                None => {
                    assert(st0.map_values(|f: Frame| state_of(f)).len() == 0);
                    break;
                },
            };
            assert(frame == st0.last());
            assert(frame_ok(self.edges@, self.nodes@.len() as int, used@, start_edge, start_node, st0[st0.len() - 1]));
            let ghost sv0 = st0.map_values(|f: Frame| state_of(f));
            proof {
                assert(stack@.map_values(|f: Frame| state_of(f)) =~= sv0.drop_last());
                assert(sv0.last() == state_of(frame));
            }
            if iterations == max_iterations {
                assert(search(self.edges@, used@, start_node, sv0, 0) is None);
                break;
            }
            iterations = iterations + 1;
            let ghost es = self.edges@;
            let ghost fuel = (max_iterations - iterations) as nat;
            let ghost rest = sv0.drop_last();
            assert(search(es, used@, start_node, sv0, (fuel + 1) as nat) == trail_from(es, used@, start_edge, start_node));
            let (current_node, path, visited, neighbor_idx) = frame;
            if current_node == start_node && path.len() > 1 {
                return Some(path);
            }
            if !vec_contains(&visited, current_node) {
                let neighbors = &adj[current_node as usize];
                proof {
                    assert forall|j: int| 0 <= j < neighbors@.len() implies (#[trigger] neighbors@[j]).0 < used@.len() by {
                        assert(adj@[current_node as int]@[j] == neighbors@[j]);
                    }
                }
                let cand = next_candidate(neighbors, neighbor_idx, &path, used);
                proof {
                    assert(neighbors@ == adj_list(es, current_node, es.len() as int));
                }
                match cand {
                    Some(i) => {
                        assert(i < neighbors.len());
                        let (eid, other) = neighbors[i];
                        let ghost entry = adj@[current_node as int]@[i as int];
                        assert(entry == (eid, other));
                        let back_path = path.clone();
                        proof {
                            assert(back_path@ =~= path@);
                        }
                        let back_visited = visited.clone();
                        proof {
                            assert(back_visited@ =~= visited@);
                        }
                        stack.push((current_node, back_path, back_visited, i + 1));
                        let mut new_path = path.clone();
                        proof {
                            assert(new_path@ =~= path@);
                        }
                        new_path.push(eid);
                        let mut new_visited = visited.clone();
                        proof {
                            assert(new_visited@ =~= visited@);
                        }
                        new_visited.push(current_node);
                        proof {
                            let p0 = path@;
                            let p1 = new_path@;
                            assert(p1.drop_last() =~= p0);
                            assert(p1.last() == eid);
                            assert forall|a: int, b: int| 0 <= a < b < p1.len() implies p1[a] != p1[b] by {
                                if b == p1.len() - 1 {
                                    assert(p0[a] == p1[a]);
                                    assert(p0.contains(p1[a]));
                                } else {
                                    assert(p0[a] == p1[a] && p0[b] == p1[b]);
                                }
                            }
                            assert forall|k: int| 1 <= k < p1.len() implies !used@[#[trigger] p1[k] as int] by {
                                if k < p1.len() - 1 {
                                    assert(p0[k] == p1[k]);
                                }
                            }
                        }
                        stack.push((other, new_path, new_visited, 0));
                        proof {
                            assert forall|j: int| 0 <= j < stack@.len() implies frame_ok(
                                self.edges@,
                                self.nodes@.len() as int,
                                used@,
                                start_edge,
                                start_node,
                                #[trigger] stack@[j],
                            ) by {
                                if j < st0.len() - 1 {
                                    assert(stack@[j] == st0[j]);
                                }
                            }
                            assert(stack@.map_values(|f: Frame| state_of(f)) =~= sv0.drop_last().push(
                                (current_node, path@, visited@, i + 1),
                            ).push((other, path@.push(eid), visited@.push(current_node), 0int)));
                            assert(next_cand(adj_list(es, current_node, es.len() as int), neighbor_idx as int, path@, used@) == Some(i as int));
                            assert(search(es, used@, start_node, sv0, (fuel + 1) as nat) == search(
                                es,
                                used@,
                                start_node,
                                rest.push((current_node, path@, visited@, i + 1)).push(
                                    (other, path@.push(eid), visited@.push(current_node), 0int),
                                ),
                                fuel,
                            ));
                        }
                    },
                    None => {
                        assert(search(es, used@, start_node, sv0, (fuel + 1) as nat) == search(es, used@, start_node, rest, fuel));
                    },
                }
            } else {
                assert(search(es, used@, start_node, sv0, (fuel + 1) as nat) == search(es, used@, start_node, rest, fuel));
            }
        }
        None
    }
}


/// `path` is a loop that shape inference may create: a closed trail from
/// the first end of its first edge back to it, made of edges that no shape
/// in `shapes` uses.
pub open spec fn inferable_loop<E>(edges: Seq<Option<Edge<E>>>, shapes: Seq<Option<Shape>>, path: Seq<u32>) -> bool {
    &&& path.len() > 0
    &&& is_cycle(edges, (edges[path[0] as int]->0).a, path)
    &&& forall|k: int| 0 <= k < path.len() ==> !in_some_shape(shapes, #[trigger] path[k])
}

/// The loops found by one inference pass, in the order of their first
/// edges: each first edge is greater than the one before and lies on no
/// earlier loop.
pub open spec fn loops_in_order(paths: Seq<Seq<u32>>) -> bool {
    forall|a: int, b: int|
        0 <= a < b < paths.len() ==> #[trigger] paths[a][0] < #[trigger] paths[b][0]
            && !paths[a].contains(paths[b][0])
}

/// Slot `slot` holds the closed, non-zero shape with id `id` made of the
/// edges of `path`.
pub open spec fn holds_loop_shape(slot: Option<Shape>, id: int, path: Seq<u32>) -> bool {
    &&& slot is Some
    &&& (slot->0).id == id
    &&& (slot->0).edges@ == path
    &&& (slot->0).closed
    &&& (slot->0).fill_rule == FillRule::NonZero
}

impl<N, E> Graph<N, E> {
    /// Search for a loop from each edge in turn, skipping edges that a shape
    /// or an earlier loop uses.
    fn find_all_cycles(&self, adj: &Vec<Vec<(u32, u32)>>, used: &Vec<bool>) -> (paths: Vec<Vec<u32>>)
        requires
            self.wf(),
            adj@.len() == self.nodes@.len(),
            adjacency_ok(self.edges@, adj@),
            used@.len() == self.edges@.len(),
            forall|e: int| 0 <= e < used@.len() ==> #[trigger] used@[e] == in_some_shape(self.shapes@, e as u32),
            forall|n: int| 0 <= n < adj@.len() ==> (#[trigger] adj@[n])@ == adj_list(self.edges@, n as u32, self.edges@.len() as int),
        ensures
            forall|j: int| 0 <= j < paths@.len() ==> inferable_loop(self.edges@, self.shapes@, #[trigger] paths@[j]@),
            loops_in_order(paths@.map_values(|p: Vec<u32>| p@)),
            paths@.map_values(|p: Vec<u32>| p@) == found_loops(self.edges@, used@, self.edges@.len() as int),
    {
        let ghost es = self.edges@;
        let mut paths: Vec<Vec<u32>> = Vec::new();
        let mut visited_edges: Vec<bool> = Vec::new();
        let mut i: usize = 0;
        while i < self.edges.len()
            invariant
                i <= self.edges@.len(),
                visited_edges@.len() == i,
                forall|e: int| 0 <= e < i ==> !(#[trigger] visited_edges@[e]),
            decreases self.edges@.len() - i,
        {
            visited_edges.push(false);
            i = i + 1;
        }
        let mut start: usize = 0;
        while start < self.edges.len()
            invariant
                self.wf(),
                adj@.len() == self.nodes@.len(),
                adjacency_ok(self.edges@, adj@),
                used@.len() == self.edges@.len(),
                forall|e: int| 0 <= e < used@.len() ==> #[trigger] used@[e] == in_some_shape(self.shapes@, e as u32),
                forall|n: int| 0 <= n < adj@.len() ==> (#[trigger] adj@[n])@ == adj_list(self.edges@, n as u32, self.edges@.len() as int),
                start <= self.edges@.len(),
                visited_edges@.len() == self.edges@.len(),
                forall|j: int| 0 <= j < paths@.len() ==> inferable_loop(self.edges@, self.shapes@, #[trigger] paths@[j]@),
                forall|j: int| 0 <= j < paths@.len() ==> (#[trigger] paths@[j])@[0] < start,
                forall|j: int, k: int| 0 <= j < paths@.len() && 0 <= k < paths@[j]@.len()
                    ==> #[trigger] visited_edges@[paths@[j]@[k] as int],
                loops_in_order(paths@.map_values(|p: Vec<u32>| p@)),
                es == self.edges@,
                paths@.map_values(|p: Vec<u32>| p@) == found_loops(es, used@, start as int),
                forall|e: int| 0 <= e < visited_edges@.len() ==> #[trigger] visited_edges@[e] == on_a_loop(
                    paths@.map_values(|p: Vec<u32>| p@),
                    e as u32,
                ),
            decreases self.edges@.len() - start,
        {
            let ghost pv0 = paths@.map_values(|p: Vec<u32>| p@);
            let ghost t = start as int;
            let sid = start as u32;
            match self.get_edge(sid) {
                Some(edge) => {
                    if !used[start] && !visited_edges[start] {
                        match self.find_cycle_from(sid, edge.a, adj, used) {
                            Some(path) => {
                                proof {
                                    lemma_walk_edges_exist(self.edges@, edge.a, path@);
                                }
                                let ghost v0 = visited_edges@;
                                let mut k: usize = 0;
                                while k < path.len()
                                    invariant
                                        k <= path@.len(),
                                        visited_edges@.len() == self.edges@.len(),
                                        v0.len() == self.edges@.len(),
                                        forall|q: int| 0 <= q < path@.len() ==> #[trigger] path@[q] < self.edges@.len(),
                                        forall|e: int| 0 <= e < v0.len() && #[trigger] v0[e] ==> visited_edges@[e],
                                        forall|q: int| 0 <= q < k ==> #[trigger] visited_edges@[path@[q] as int],
                                        forall|e: int| 0 <= e < v0.len() ==> #[trigger] visited_edges@[e] == (v0[e] || path@.subrange(0, k as int).contains(e as u32)),
                                        v0.len() <= u32::MAX,
                                    decreases path@.len() - k,
                                {
                                    let ghost w0 = visited_edges@;
                                    visited_edges.set(path[k] as usize, true);
                                    proof {
                                        assert forall|e: int| 0 <= e < v0.len() implies #[trigger] visited_edges@[e] == (v0[e] || path@.subrange(0, k + 1).contains(e as u32)) by {
                                            let sub0 = path@.subrange(0, k as int);
                                            let sub1 = path@.subrange(0, k + 1);
                                            assert(sub1 =~= sub0.push(path@[k as int]));
                                            assert(sub1[k as int] == path@[k as int]);
                                            assert(w0[e] == (v0[e] || sub0.contains(e as u32)));
                                            if sub0.contains(e as u32) {
                                                let q = choose|q: int| 0 <= q < sub0.len() && sub0[q] == e as u32;
                                                assert(sub1[q] == e as u32);
                                            }
                                            if sub1.contains(e as u32) && e != path@[k as int] {
                                                let q = choose|q: int| 0 <= q < sub1.len() && sub1[q] == e as u32;
                                                assert(q < k);
                                                assert(sub0[q] == e as u32);
                                            }
                                        }
                                        assert forall|e: int| 0 <= e < v0.len() && #[trigger] v0[e] implies visited_edges@[e] by {
                                            assert(w0[e]);
                                        }
                                        assert forall|q: int| 0 <= q < k + 1 implies #[trigger] visited_edges@[path@[q] as int] by {
                                            if q < k {
                                                assert(w0[path@[q] as int]);
                                            }
                                        }
                                    }
                                    k = k + 1;
                                }
                                let ghost before = paths@;
                                proof {
                                    assert forall|q: int| 0 <= q < path@.len() implies !in_some_shape(self.shapes@, #[trigger] path@[q]) by {
                                        if q > 0 {
                                            assert(!used@[path@[q] as int]);
                                        } else {
                                            assert(!used@[start as int]);
                                        }
                                    }
                                    assert forall|j: int| 0 <= j < before.len() implies !(#[trigger] before[j])@.contains(sid) by {
                                        if before[j]@.contains(sid) {
                                            let q = choose|q: int| 0 <= q < before[j]@.len() && before[j]@[q] == sid;
                                            assert(v0[before[j]@[q] as int]);
                                        }
                                    }
                                }
                                paths.push(path);
                                proof {
                                    let m = paths@.map_values(|p: Vec<u32>| p@);
                                    let m0 = before.map_values(|p: Vec<u32>| p@);
                                    assert forall|a: int, b: int| 0 <= a < b < m.len() implies #[trigger] m[a][0] < #[trigger] m[b][0]
                                        && !m[a].contains(m[b][0]) by {
                                        if b < m.len() - 1 {
                                            assert(m[a] == m0[a] && m[b] == m0[b]);
                                        } else {
                                            assert(m[a] == before[a]@);
                                        }
                                    }
                                    assert forall|j: int, q: int| 0 <= j < paths@.len() && 0 <= q < paths@[j]@.len()
                                        implies #[trigger] visited_edges@[paths@[j]@[q] as int] by {
                                        if j < before.len() {
                                            assert(paths@[j] == before[j]);
                                            assert(v0[before[j]@[q] as int]);
                                            assert(before[j]@[q] < self.edges@.len()) by {
                                                lemma_walk_edges_exist(self.edges@, (self.edges@[before[j]@[0] as int]->0).a, before[j]@);
                                            }
                                        } else {
                                            assert(paths@[j]@ == path@);
                                        }
                                    }
                                    assert(m =~= pv0.push(path@));
                                    assert(!on_a_loop(pv0, sid));
                                    assert(found_loops(es, used@, t + 1) == pv0.push(path@));
                                    assert(path@.subrange(0, path@.len() as int) =~= path@);
                                    assert forall|e: int| 0 <= e < visited_edges@.len() implies #[trigger] visited_edges@[e] == on_a_loop(m, e as u32) by {
                                        assert(v0[e] == on_a_loop(pv0, e as u32));
                                        if on_a_loop(pv0, e as u32) {
                                            let (j, q) = choose|j: int, q: int| 0 <= j < pv0.len() && 0 <= q < pv0[j].len() && #[trigger] pv0[j][q] == e as u32;
                                            assert(m[j][q] == e as u32);
                                        }
                                        if path@.contains(e as u32) {
                                            let q = choose|q: int| 0 <= q < path@.len() && path@[q] == e as u32;
                                            assert(m[pv0.len() as int][q] == e as u32);
                                        }
                                        if on_a_loop(m, e as u32) {
                                            let (j, q) = choose|j: int, q: int| 0 <= j < m.len() && 0 <= q < m[j].len() && #[trigger] m[j][q] == e as u32;
                                            if j < pv0.len() {
                                                assert(pv0[j][q] == e as u32);
                                            } else {
                                                assert(path@[q] == e as u32);
                                            }
                                        }
                                    }
                                }
                            },
                            None => {
                                assert(found_loops(es, used@, t + 1) == pv0);
                            },
                        }
                    } else {
                        assert(found_loops(es, used@, t + 1) == pv0);
                    }
                },
                None => {
                    assert(found_loops(es, used@, t + 1) == pv0);
                },
            }
            start = start + 1;
        }
        paths
    }
}


impl<N, E> Graph<N, E> {
    /// Infer shapes from closed loops of edges that no shape uses yet.
    ///
    /// Each edge, in increasing order, that lies on no shape and on no loop
    /// found before starts a search for a loop back to its first end; each
    /// loop found becomes a closed shape with the non-zero fill rule. Returns
    /// the IDs of the new shapes, which follow the existing ones.
    pub fn infer_shapes(&mut self) -> (created: Vec<u32>)
        requires
            old(self).wf(),
            old(self).shapes@.len() + old(self).edges@.len() < u32::MAX,
        ensures
            final(self).wf(),
            final(self).shapes@.len() == old(self).shapes@.len() + created@.len(),
            final(self).shapes@.subrange(0, old(self).shapes@.len() as int) == old(self).shapes@,
            forall|j: int| 0 <= j < created@.len() ==> #[trigger] created@[j] == old(self).shapes@.len() + j,
            created@.len() == inferred_loops(old(self).edges@, old(self).shapes@).len(),
            loops_in_order(inferred_loops(old(self).edges@, old(self).shapes@)),
            forall|j: int|
                0 <= j < created@.len() ==> inferable_loop(
                    old(self).edges@,
                    old(self).shapes@,
                    #[trigger] inferred_loops(old(self).edges@, old(self).shapes@)[j],
                ),
            forall|j: int|
                0 <= j < created@.len() ==> holds_loop_shape(
                    #[trigger] final(self).shapes@[old(self).shapes@.len() + j],
                    old(self).shapes@.len() + j,
                    inferred_loops(old(self).edges@, old(self).shapes@)[j],
                ),
            final(self).nodes@ == old(self).nodes@,
            final(self).edges@ == old(self).edges@,
            final(self).fills@ == old(self).fills@,
            final(self).layer_system == old(self).layer_system,
            final(self).geom_ver == old(self).geom_ver,
    {
        let adj = self.build_adjacency();
        let used = self.shape_edge_flags();
        let paths = self.find_all_cycles(&adj, &used);
        let ghost pv = paths@.map_values(|p: Vec<u32>| p@);
        proof {
            assert(used@ =~= shape_flags(self.shapes@, self.edges@.len() as int));
            assert(pv == inferred_loops(self.edges@, self.shapes@));
        }
        let ghost n0 = old(self).shapes@.len();
        proof {
            assert forall|j: int| 0 <= j < paths@.len() implies (#[trigger] paths@[j])@.len() <= old(self).edges@.len() by {
                let p = paths@[j]@;
                lemma_walk_edges_exist(self.edges@, (self.edges@[p[0] as int]->0).a, p);
                lemma_distinct_ids_bound(p, self.edges@.len() as int);
            }
            assert(paths@.len() <= old(self).edges@.len()) by {
                let firsts = Seq::new(paths@.len(), |j: int| paths@[j]@[0]);
                assert forall|a: int, b: int| 0 <= a < b < firsts.len() implies firsts[a] != firsts[b] by {
                    assert(pv[a][0] < pv[b][0]);
                }
                assert forall|a: int| 0 <= a < firsts.len() implies firsts[a] < old(self).edges@.len() by {
                    let p = paths@[a]@;
                    lemma_walk_edges_exist(self.edges@, (self.edges@[p[0] as int]->0).a, p);
                }
                lemma_distinct_ids_bound(firsts, self.edges@.len() as int);
            }
        }
        let mut created: Vec<u32> = Vec::new();
        let mut j: usize = 0;
        while j < paths.len()
            invariant
                self.wf(),
                j <= paths@.len(),
                paths@.len() <= old(self).edges@.len(),
                n0 == old(self).shapes@.len(),
                n0 + old(self).edges@.len() < u32::MAX,
                pv == paths@.map_values(|p: Vec<u32>| p@),
                forall|q: int| 0 <= q < paths@.len() ==> inferable_loop(old(self).edges@, old(self).shapes@, #[trigger] paths@[q]@),
                self.shapes@.len() == n0 + j,
                self.shapes@.subrange(0, n0 as int) == old(self).shapes@,
                created@.len() == j,
                forall|q: int| 0 <= q < j ==> #[trigger] created@[q] == n0 + q,
                forall|q: int| 0 <= q < j ==> holds_loop_shape(#[trigger] self.shapes@[n0 + q], n0 + q, pv[q]),
                self.nodes@ == old(self).nodes@,
                self.edges@ == old(self).edges@,
                self.fills@ == old(self).fills@,
                self.layer_system == old(self).layer_system,
                self.geom_ver == old(self).geom_ver,
            decreases paths@.len() - j,
        {
            let ghost s0 = self.shapes@;
            proof {
                let p = paths@[j as int]@;
                lemma_walk_edges_exist(self.edges@, (self.edges@[p[0] as int]->0).a, p);
                assert forall|k: int| 0 <= k < p.len() implies self.edge_live(#[trigger] p[k] as int) by {}
            }
            let r = self.create_shape(paths[j].as_slice(), true);
            match r {
                Some(id) => {
                    created.push(id);
                },
                None => {
                    assert(false);
                },
            }
            proof {
                assert(self.shapes@.subrange(0, n0 as int) =~= s0.subrange(0, n0 as int));
                assert forall|q: int| 0 <= q < j + 1 implies holds_loop_shape(#[trigger] self.shapes@[n0 + q], n0 + q, pv[q]) by {
                    if q < j {
                        assert(self.shapes@[n0 + q] == s0[n0 + q]);
                    }
                }
            }
            j = j + 1;
        }
        proof {
            assert forall|q: int| 0 <= q < pv.len() implies inferable_loop(old(self).edges@, old(self).shapes@, #[trigger] pv[q]) by {
                assert(pv[q] == paths@[q]@);
            }
        }
        created
    }
}

/// Distinct ids below `n` number at most `n`.
proof fn lemma_distinct_ids_bound(s: Seq<u32>, n: int)
    requires
        s.no_duplicates(),
        forall|k: int| 0 <= k < s.len() ==> #[trigger] s[k] < n,
        n >= 0,
    ensures
        s.len() <= n,
{
    let t = s.map_values(|x: u32| x as int);
    assert forall|a: int, b: int| 0 <= a < b < t.len() implies t[a] != t[b] by {
        assert(s[a] != s[b]);
    }
    t.unique_seq_to_set();
    let range = vstd::set_lib::set_int_range(0, n);
    assert forall|x: int| #[trigger] t.to_set().contains(x) implies range.contains(x) by {
        let k = choose|k: int| 0 <= k < t.len() && t[k] == x;
        assert(s[k] < n);
    }
    vstd::set_lib::lemma_int_range(0, n);
    vstd::set_lib::lemma_len_subset(t.to_set(), range);
}

} // verus!
