//! Rings: closed walks through the network that start at a node with
//! exactly two neighbors and always leave a node by its first neighbor
//! other than the one they came from. They stand in for regions when face
//! extraction finds none; the polygons and areas that decide which rings
//! become regions are computed on positions, outside this module.

use vstd::prelude::*;
use crate::graph::{Graph, Edge, touches};
use crate::cycles::step_from;

verus! {

/// The other ends of the existing edges among the first `k` of `edges`
/// that touch node `n`, in edge order: the neighbors of `n`.
pub open spec fn neighbor_seq<E>(edges: Seq<Option<Edge<E>>>, n: u32, k: int) -> Seq<u32>
    decreases k,
{
    if k <= 0 {
        seq![]
    } else if edges[k - 1] is Some && touches(edges[k - 1]->0, n) {
        neighbor_seq(edges, n, k - 1).push(step_from(edges[k - 1]->0, n))
    } else {
        neighbor_seq(edges, n, k - 1)
    }
}

/// The first element of `s` other than `p`.
pub open spec fn first_other(s: Seq<u32>, p: u32) -> Option<u32>
    decreases s.len(),
{
    if s.len() == 0 {
        None
    } else if s[0] != p {
        Some(s[0])
    } else {
        first_other(s.drop_first(), p)
    }
}

/// The node a ring `c` came from before reaching position `i`; the start
/// node for the first position.
pub open spec fn came_from(c: Seq<u32>, i: int) -> u32 {
    if i == 0 {
        c[0]
    } else {
        c[i - 1]
    }
}

/// The node a ring `c` goes to after position `i`: the next one, and the
/// start after the last.
pub open spec fn goes_to(c: Seq<u32>, i: int) -> u32 {
    if i + 1 < c.len() {
        c[i + 1]
    } else {
        c[0]
    }
}

/// `c` is a ring of `edges`: at least three nodes; it starts at a node
/// with two neighbors; from each node it goes to the first neighbor other
/// than the node it came from; it comes back to the start only at its end.
pub open spec fn is_ring<E>(edges: Seq<Option<Edge<E>>>, c: Seq<u32>) -> bool {
    &&& c.len() >= 3
    &&& neighbor_seq(edges, c[0], edges.len() as int).len() == 2
    &&& forall|i: int|
        0 <= i < c.len() ==> first_other(neighbor_seq(edges, #[trigger] c[i], edges.len() as int), came_from(c, i))
            == Some(goes_to(c, i))
    &&& forall|i: int| 1 <= i < c.len() ==> #[trigger] c[i] != c[0]
}

/// Edge `e` joins nodes `u` and `v`.
pub open spec fn joins<E>(e: Option<Edge<E>>, u: u32, v: u32) -> bool {
    e is Some && (((e->0).a == u && (e->0).b == v) || ((e->0).a == v && (e->0).b == u))
}

/// The first existing edge of `edges`, from index `from` on, that joins `u` and `v`.
pub open spec fn first_joining<E>(edges: Seq<Option<Edge<E>>>, u: u32, v: u32, from: int) -> Option<u32>
    decreases edges.len() - from,
{
    if from < 0 || from >= edges.len() {
        None
    } else if joins(edges[from], u, v) {
        Some(from as u32)
    } else {
        first_joining(edges, u, v, from + 1)
    }
}

/// The most steps a walk takes.
pub const RING_WALK_LIMIT: u32 = 10000;

/// The rest of the walk from `start` that came from `prev` to `cur`, with
/// the nodes `acc` behind it and at most `steps` further steps allowed:
/// the nodes it passes and the node where it stops. It stops when a node
/// has no neighbor other than the one it came from, when it steps back to
/// `start`, or when no steps are left.
pub open spec fn walk_on<E>(
    es: Seq<Option<Edge<E>>>,
    start: u32,
    prev: u32,
    cur: u32,
    acc: Seq<u32>,
    steps: nat,
) -> (Seq<u32>, u32)
    decreases steps,
{
    let here = acc.push(cur);
    match first_other(neighbor_seq(es, cur, es.len() as int), prev) {
        None => (here, cur),
        Some(nxt) => if steps == 0 || nxt == start {
            (here, nxt)
        } else {
            walk_on(es, start, cur, nxt, here, (steps - 1) as nat)
        },
    }
}

/// The walk from `start`: the nodes it passes and the node where it stops.
pub open spec fn walk<E>(es: Seq<Option<Edge<E>>>, start: u32) -> (Seq<u32>, u32) {
    walk_on(es, start, start, start, seq![], RING_WALK_LIMIT as nat)
}

/// The walk from `start` closes a ring: it passes at least three nodes,
/// stops back at `start`, and each of its steps has an edge.
pub open spec fn closes<E>(es: Seq<Option<Edge<E>>>, start: u32) -> bool {
    let w = walk(es, start);
    &&& w.0.len() >= 3
    &&& w.1 == start
    &&& forall|i: int| 0 <= i < w.0.len() ==> (#[trigger] first_joining(es, w.0[i], goes_to(w.0, i), 0)) is Some
}

/// Node `m` lies on a walk started at a node below `s`.
pub open spec fn seen_before<E>(es: Seq<Option<Edge<E>>>, s: int, m: u32) -> bool
    decreases s,
{
    if s <= 0 {
        false
    } else {
        let t = s - 1;
        let starts = neighbor_seq(es, t as u32, es.len() as int).len() == 2 && !seen_before(es, t, t as u32);
        seen_before(es, t, m) || (starts && walk(es, t as u32).0.contains(m))
    }
}

/// Node `s` starts a walk: it has two neighbors and no walk started at a
/// lower node passed through it.
pub open spec fn starts_walk<E>(es: Seq<Option<Edge<E>>>, s: int) -> bool {
    neighbor_seq(es, s as u32, es.len() as int).len() == 2 && !seen_before(es, s, s as u32)
}

/// The nodes of the rings closed by walks started below node `s`, in the
/// order of their starts.
pub open spec fn rings_before<E>(es: Seq<Option<Edge<E>>>, s: int) -> Seq<Seq<u32>>
    decreases s,
{
    if s <= 0 {
        seq![]
    } else if starts_walk(es, s - 1) && closes(es, (s - 1) as u32) {
        rings_before(es, s - 1).push(walk(es, (s - 1) as u32).0)
    } else {
        rings_before(es, s - 1)
    }
}

/// A ring: its nodes, and for each node the first edge that joins it to
/// the next node of the ring.
pub struct Ring {
    pub nodes: Vec<u32>,
    pub edges: Vec<u32>,
}

/// `r` is a ring of `edges` whose edge list names, for each step, the
/// first edge that joins its two nodes.
pub open spec fn ring_with_edges<E>(edges: Seq<Option<Edge<E>>>, r: Ring) -> bool {
    &&& is_ring(edges, r.nodes@)
    &&& r.edges@.len() == r.nodes@.len()
    &&& forall|i: int|
        0 <= i < r.nodes@.len() ==> first_joining(edges, r.nodes@[i], goes_to(r.nodes@, i), 0) == Some(
            #[trigger] r.edges@[i],
        )
}

fn push_node(adj: &mut Vec<Vec<u32>>, n: usize, x: u32)
    requires
        n < old(adj)@.len(),
    ensures
        final(adj)@.len() == old(adj)@.len(),
        final(adj)@[n as int]@ == old(adj)@[n as int]@.push(x),
        forall|m: int| 0 <= m < old(adj)@.len() && m != n ==> #[trigger] final(adj)@[m] == old(adj)@[m],
{
    adj[n].push(x);
}

/// The first element of `s` other than `p`.
fn first_other_in(s: &Vec<u32>, p: u32) -> (r: Option<u32>)
    ensures
        r == first_other(s@, p),
{
    let mut i: usize = 0;
    assert(s@.skip(0) =~= s@);
    while i < s.len()
        invariant
            i <= s@.len(),
            first_other(s@, p) == first_other(s@.skip(i as int), p),
        decreases s@.len() - i,
    {
        assert(s@.skip(i as int)[0] == s@[i as int]);
        if s[i] != p {
            return Some(s[i]);
        }
        assert(s@.skip(i as int).drop_first() =~= s@.skip(i + 1));
        i = i + 1;
    }
    None
}

impl<N, E> Graph<N, E> {
    /// For each node, its neighbors in edge order.
    fn neighbor_lists(&self) -> (adj: Vec<Vec<u32>>)
        requires
            self.wf(),
        ensures
            adj@.len() == self.nodes@.len(),
            forall|n: int| 0 <= n < adj@.len() ==> (#[trigger] adj@[n])@ == neighbor_seq(self.edges@, n as u32, self.edges@.len() as int),
    {
        let mut adj: Vec<Vec<u32>> = Vec::new();
        let mut n: usize = 0;
        while n < self.nodes.len()
            invariant
                n <= self.nodes@.len(),
                adj@.len() == n,
                forall|m: int| 0 <= m < n ==> (#[trigger] adj@[m])@ == neighbor_seq(self.edges@, m as u32, 0),
            decreases self.nodes@.len() - n,
        {
            adj.push(Vec::new());
            n = n + 1;
        }
        let mut k: usize = 0;
        while k < self.edges.len()
            invariant
                self.wf(),
                k <= self.edges@.len(),
                adj@.len() == self.nodes@.len(),
                forall|m: int| 0 <= m < adj@.len() ==> (#[trigger] adj@[m])@ == neighbor_seq(self.edges@, m as u32, k as int),
            decreases self.edges@.len() - k,
        {
            let ghost a0 = adj@;
            match &self.edges[k] {
                Some(e) => {
                    assert(self.edge_live(k as int));
                    push_node(&mut adj, e.a as usize, e.b);
                    let ghost a1 = adj@;
                    push_node(&mut adj, e.b as usize, e.a);
                    proof {
                        assert forall|m: int| 0 <= m < adj@.len() implies (#[trigger] adj@[m])@ == neighbor_seq(self.edges@, m as u32, k + 1) by {
                            if m == e.a {
                                assert(adj@[m] == a1[m]);
                            } else if m == e.b {
                            } else {
                                assert(adj@[m] == a1[m]);
                                assert(a1[m] == a0[m]);
                                assert(!touches(*e, m as u32));
                            }
                        }
                    }
                },
                None => {
                    proof {
                        assert forall|m: int| 0 <= m < adj@.len() implies (#[trigger] adj@[m])@ == neighbor_seq(self.edges@, m as u32, k + 1) by {}
                    }
                },
            }
            k = k + 1;
        }
        adj
    }

    /// The first existing edge that joins `u` and `v`.
    fn find_joining(&self, u: u32, v: u32) -> (r: Option<u32>)
        requires
            self.wf(),
        ensures
            r == first_joining(self.edges@, u, v, 0),
    {
        let mut i: usize = 0;
        while i < self.edges.len()
            invariant
                self.wf(),
                i <= self.edges@.len(),
                first_joining(self.edges@, u, v, 0) == first_joining(self.edges@, u, v, i as int),
            decreases self.edges@.len() - i,
        {
            let hit = match &self.edges[i] {
                Some(e) => (e.a == u && e.b == v) || (e.a == v && e.b == u),
                None => false,
            };
            if hit {
                return Some(i as u32);
            }
            i = i + 1;
        }
        None
    }

    /// The rings of the network. Each node with two neighbors that no
    /// earlier walk passed through, in increasing order, starts a walk that
    /// leaves each node by its first neighbor other than the one it came
    /// from, for at most `RING_WALK_LIMIT` steps; a walk that comes back to
    /// its start after at least three nodes is a ring, kept when each of its
    /// steps has an edge.
    pub fn simple_rings(&self) -> (rings: Vec<Ring>)
        requires
            self.wf(),
        ensures
            rings@.len() == rings_before(self.edges@, self.nodes@.len() as int).len(),
            forall|j: int|
                0 <= j < rings@.len() ==> (#[trigger] rings@[j]).nodes@ == rings_before(
                    self.edges@,
                    self.nodes@.len() as int,
                )[j],
            forall|j: int| 0 <= j < rings@.len() ==> ring_with_edges(self.edges@, #[trigger] rings@[j]),
            forall|a: int, b: int| 0 <= a < b < rings@.len() ==> #[trigger] rings@[a].nodes@[0] < #[trigger] rings@[b].nodes@[0],
    {
        let ghost es = self.edges@;
        let adj = self.neighbor_lists();
        let n = self.nodes.len();
        let mut visited: Vec<bool> = Vec::new();
        let mut i: usize = 0;
        while i < n
            invariant
                n == self.nodes@.len(),
                i <= n,
                visited@.len() == i,
                forall|m: int| 0 <= m < i ==> !(#[trigger] visited@[m]),
            decreases n - i,
        {
            visited.push(false);
            i = i + 1;
        }
        let mut rings: Vec<Ring> = Vec::new();
        let mut start: usize = 0;
        while start < n
            invariant
                self.wf(),
                es == self.edges@,
                n == self.nodes@.len(),
                start <= n,
                visited@.len() == n,
                forall|m: int| 0 <= m < n ==> #[trigger] visited@[m] == seen_before(es, start as int, m as u32),
                adj@.len() == n,
                forall|m: int| 0 <= m < n ==> (#[trigger] adj@[m])@ == neighbor_seq(self.edges@, m as u32, self.edges@.len() as int),
                rings@.len() == rings_before(es, start as int).len(),
                forall|j: int| 0 <= j < rings@.len() ==> (#[trigger] rings@[j]).nodes@ == rings_before(es, start as int)[j],
                forall|j: int| 0 <= j < rings@.len() ==> ring_with_edges(self.edges@, #[trigger] rings@[j]),
                forall|j: int| 0 <= j < rings@.len() ==> (#[trigger] rings@[j]).nodes@[0] < start,
                forall|a: int, b: int| 0 <= a < b < rings@.len() ==> #[trigger] rings@[a].nodes@[0] < #[trigger] rings@[b].nodes@[0],
            decreases n - start,
        {
            let ghost s = start as int;
            let ghost v_before = visited@;
            assert(starts_walk(es, s) <==> (adj@[s]@.len() == 2 && !visited@[s]));
            if adj[start].len() == 2 && !visited[start] {
                let su = start as u32;
                let res = self.walk_ring(&adj, &mut visited, su);
                proof {
                    assert forall|m: int| 0 <= m < n implies #[trigger] visited@[m] == seen_before(es, s + 1, m as u32) by {
                        assert(v_before[m] == seen_before(es, s, m as u32));
                    }
                }
                match res {
                    Some(ring) => {
                        let ghost before = rings@;
                        rings.push(ring);
                        proof {
                            assert(rings_before(es, s + 1) == rings_before(es, s).push(walk(es, su).0));
                            assert forall|a: int, b: int| 0 <= a < b < rings@.len() implies #[trigger] rings@[a].nodes@[0] < #[trigger] rings@[b].nodes@[0] by {
                                if b < before.len() {
                                    assert(rings@[a] == before[a] && rings@[b] == before[b]);
                                } else {
                                    assert(rings@[a] == before[a]);
                                }
                            }
                            assert forall|j: int| 0 <= j < rings@.len() implies (#[trigger] rings@[j]).nodes@ == rings_before(es, s + 1)[j] by {
                                if j < before.len() {
                                    assert(rings@[j] == before[j]);
                                }
                            }
                        }
                    },
                    None => {
                        assert(rings_before(es, s + 1) == rings_before(es, s));
                    },
                }
            } else {
                proof {
                    assert(rings_before(es, s + 1) == rings_before(es, s));
                    assert forall|m: int| 0 <= m < n implies #[trigger] visited@[m] == seen_before(es, s + 1, m as u32) by {}
                }
            }
            start = start + 1;
        }
        rings
    }

    /// The walk from `start`, marking the nodes it passes; the ring it
    /// closes, with its edges, if any.
    fn walk_ring(&self, adj: &Vec<Vec<u32>>, visited: &mut Vec<bool>, start: u32) -> (r: Option<Ring>)
        requires
            self.wf(),
            adj@.len() == self.nodes@.len(),
            old(visited)@.len() == self.nodes@.len(),
            start < self.nodes@.len(),
            forall|m: int| 0 <= m < adj@.len() ==> (#[trigger] adj@[m])@ == neighbor_seq(self.edges@, m as u32, self.edges@.len() as int),
            adj@[start as int]@.len() == 2,
        ensures
            final(visited)@.len() == old(visited)@.len(),
            forall|m: int|
                0 <= m < old(visited)@.len() ==> #[trigger] final(visited)@[m] == (old(visited)@[m] || walk(
                    self.edges@,
                    start,
                ).0.contains(m as u32)),
            r is Some <==> closes(self.edges@, start),
            r matches Some(ring) ==> ring_with_edges(self.edges@, ring) && ring.nodes@ == walk(self.edges@, start).0
                && ring.nodes@[0] == start,
    {
        let ghost es = self.edges@;
        let ghost len = self.edges@.len() as int;
        let ghost v0 = visited@;
        let mut cycle: Vec<u32> = Vec::new();
        let mut prev = start;
        let mut cur = start;
        let mut guard: u32 = 0;
        loop
            invariant_except_break
                cycle@.len() == 0 ==> prev == start && cur == start,
                cycle@.len() > 0 ==> cur != start,
                cycle@.len() > 0 ==> cycle@[0] == start && prev == cycle@.last(),
                forall|i: int| 1 <= i < cycle@.len() ==> #[trigger] cycle@[i] != start,
                forall|i: int|
                    0 <= i < cycle@.len() ==> first_other(neighbor_seq(es, #[trigger] cycle@[i], len), came_from(cycle@, i))
                        == Some(if i + 1 < cycle@.len() { cycle@[i + 1] } else { cur }),
                walk_on(es, start, prev, cur, cycle@, (RING_WALK_LIMIT - guard) as nat) == walk(es, start),
            invariant
                self.wf(),
                es == self.edges@,
                len == es.len(),
                visited@.len() == self.nodes@.len(),
                v0.len() == self.nodes@.len(),
                forall|m: int| 0 <= m < v0.len() ==> #[trigger] visited@[m] == (v0[m] || cycle@.contains(m as u32)),
                adj@.len() == self.nodes@.len(),
                forall|m: int| 0 <= m < adj@.len() ==> (#[trigger] adj@[m])@ == neighbor_seq(es, m as u32, len),
                adj@[start as int]@.len() == 2,
                start < self.nodes@.len(),
                cur < self.nodes@.len(),
                forall|i: int| 0 <= i < cycle@.len() ==> #[trigger] cycle@[i] < self.nodes@.len(),
                guard <= RING_WALK_LIMIT,
            ensures
                cur == start && cycle@.len() >= 3 ==> is_ring(es, cycle@),
                cycle@.len() > 0 ==> cycle@[0] == start,
                walk(es, start) == (cycle@, cur),
            decreases RING_WALK_LIMIT - guard,
        {
            let ghost c0 = cycle@;
            let ghost vb = visited@;
            cycle.push(cur);
            visited.set(cur as usize, true);
            proof {
                assert forall|m: int| 0 <= m < v0.len() implies #[trigger] visited@[m] == (v0[m] || cycle@.contains(m as u32)) by {
                    if m == cur {
                        assert(cycle@[cycle@.len() - 1] == cur);
                    } else {
                        assert(vb[m] == (v0[m] || c0.contains(m as u32)));
                        if c0.contains(m as u32) {
                            let q = choose|q: int| 0 <= q < c0.len() && c0[q] == m as u32;
                            assert(cycle@[q] == m as u32);
                        }
                        if cycle@.contains(m as u32) {
                            let q = choose|q: int| 0 <= q < cycle@.len() && cycle@[q] == m as u32;
                            assert(q < c0.len());
                            assert(c0[q] == m as u32);
                        }
                    }
                }
            }
            match first_other_in(&adj[cur as usize], prev) {
                Some(nxt) => {
                    proof {
                        let c = cycle@;
                        assert(adj@[cur as int]@ == neighbor_seq(es, cur, len));
                        assert(c.last() == cur);
                        if c0.len() == 0 {
                            assert(came_from(c, 0) == start);
                        } else {
                            assert(came_from(c, c.len() - 1) == c0.last());
                        }
                        assert forall|i: int|
                            0 <= i < c.len() implies first_other(neighbor_seq(es, #[trigger] c[i], len), came_from(c, i))
                                == Some(if i + 1 < c.len() { c[i + 1] } else { nxt }) by {
                            if i < c0.len() {
                                assert(c[i] == c0[i]);
                                assert(came_from(c, i) == came_from(c0, i));
                                if i + 1 < c0.len() {
                                    assert(c[i + 1] == c0[i + 1]);
                                }
                            }
                        }
                        assert forall|i: int| 0 <= i < c.len() implies #[trigger] c[i] < self.nodes@.len() by {
                            if i < c0.len() {
                                assert(c[i] == c0[i]);
                            }
                        }
                        // Every neighbor of a node is an existing node.
                        lemma_neighbors_live(self, cur, len);
                        lemma_first_other_in(neighbor_seq(es, cur, len), prev);
                    }
                    prev = cur;
                    cur = nxt;
                },
                None => {
                    proof {
                        if cur == start && cycle@.len() >= 3 {
                            assert(cycle@[cycle@.len() - 1] == cur);
                        }
                        assert forall|i: int| 0 <= i < cycle@.len() implies #[trigger] cycle@[i] < self.nodes@.len() by {
                            if i < c0.len() {
                                assert(cycle@[i] == c0[i]);
                            }
                        }
                    }
                    break;
                },
            }
            if guard == RING_WALK_LIMIT {
                proof {
                    if cur == start && cycle@.len() >= 3 {
                        lemma_ring_closed(es, cycle@, start);
                    }
                }
                break;
            }
            guard = guard + 1;
            if cur == start {
                proof {
                    if cycle@.len() >= 3 {
                        lemma_ring_closed(es, cycle@, start);
                    }
                }
                break;
            }
        }
        if cycle.len() >= 3 && cur == start {
            let ghost c = cycle@;
            let mut edge_seq: Vec<u32> = Vec::new();
            let count = cycle.len();
            let mut k: usize = 0;
            while k < count
                invariant
                    self.wf(),
                    es == self.edges@,
                    v0 == old(visited)@,
                    visited@.len() == v0.len(),
                    forall|m: int| 0 <= m < v0.len() ==> #[trigger] visited@[m] == (v0[m] || c.contains(m as u32)),
                    walk(es, start) == (c, start),
                    count == c.len(),
                    c == cycle@,
                    k <= count,
                    edge_seq@.len() == k,
                    forall|i: int| 0 <= i < k ==> first_joining(es, c[i], goes_to(c, i), 0) == Some(#[trigger] edge_seq@[i]),
                decreases count - k,
            {
                let u = cycle[k];
                let v = if k + 1 < count { cycle[k + 1] } else { cycle[0] };
                match self.find_joining(u, v) {
                    Some(eid) => {
                        edge_seq.push(eid);
                    },
                    None => {
                        assert(first_joining(es, c[k as int], goes_to(c, k as int), 0) is None);
                        return None;
                    },
                }
                k = k + 1;
            }
            let ring = Ring { nodes: cycle, edges: edge_seq };
            proof {
                assert(ring.nodes@ == c);
                assert forall|i: int| 0 <= i < c.len() implies (#[trigger] first_joining(es, c[i], goes_to(c, i), 0)) is Some by {
                    assert(first_joining(es, c[i], goes_to(c, i), 0) == Some(ring.edges@[i]));
                }
            }
            Some(ring)
        } else {
            None
        }
    }
}

/// A walk that just stepped back to its start closes a ring when it has
/// at least three nodes.
proof fn lemma_ring_closed<E>(es: Seq<Option<Edge<E>>>, c: Seq<u32>, start: u32)
    requires
        c.len() >= 3,
        c[0] == start,
        neighbor_seq(es, start, es.len() as int).len() == 2,
        forall|i: int| 1 <= i < c.len() ==> #[trigger] c[i] != start,
        forall|i: int|
            0 <= i < c.len() ==> first_other(neighbor_seq(es, #[trigger] c[i], es.len() as int), came_from(c, i))
                == Some(if i + 1 < c.len() { c[i + 1] } else { start }),
    ensures
        is_ring(es, c),
{
    assert forall|i: int|
        0 <= i < c.len() implies first_other(neighbor_seq(es, #[trigger] c[i], es.len() as int), came_from(c, i))
            == Some(goes_to(c, i)) by {}
}

/// The first element other than `p` is an element of the sequence.
proof fn lemma_first_other_in(s: Seq<u32>, p: u32)
    ensures
        first_other(s, p) matches Some(x) ==> s.contains(x),
    decreases s.len(),
{
    if s.len() > 0 && s[0] == p {
        lemma_first_other_in(s.drop_first(), p);
        if let Some(x) = first_other(s.drop_first(), p) {
            let k = choose|k: int| 0 <= k < s.drop_first().len() && s.drop_first()[k] == x;
            assert(s[k + 1] == x);
        }
    } else if s.len() > 0 {
        assert(s[0] == s[0]);
    }
}

/// Every neighbor of a node is an existing node.
proof fn lemma_neighbors_live<N, E>(g: &Graph<N, E>, n: u32, k: int)
    requires
        g.wf(),
        0 <= k <= g.edges@.len(),
    ensures
        forall|x: u32| #[trigger] neighbor_seq(g.edges@, n, k).contains(x) ==> x < g.nodes@.len(),
    decreases k,
{
    if k > 0 {
        lemma_neighbors_live(g, n, k - 1);
        let prev = neighbor_seq(g.edges@, n, k - 1);
        if g.edges@[k - 1] is Some && touches(g.edges@[k - 1]->0, n) {
            assert(g.edge_live(k - 1));
            let e = g.edges@[k - 1]->0;
            assert(g.node_live(e.a as int) && g.node_live(e.b as int));
            let y = step_from(e, n);
            assert(y < g.nodes@.len());
            assert forall|x: u32| #[trigger] prev.push(y).contains(x) implies x < g.nodes@.len() by {
                if x != y {
                    let q = choose|q: int| 0 <= q < prev.push(y).len() && prev.push(y)[q] == x;
                    assert(prev[q] == x);
                    assert(prev.contains(x));
                }
            }
        }
    }
}

} // verus!
