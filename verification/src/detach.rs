//! Choosing the nodes that move when a set of edges is dragged, and
//! detaching the dragged edges from edges that stay behind.

use vstd::prelude::*;
use crate::graph::{touches, Edge, Graph};
use crate::graph_layers::{lemma_wrapping_step, wrapping_advance};

verus! {

/// Edge `i` exists and `sel` names it.
pub open spec fn selected<E>(edges: Seq<Option<Edge<E>>>, sel: Seq<u32>, i: int) -> bool {
    &&& 0 <= i < edges.len()
    &&& edges[i] is Some
    &&& sel.contains(i as u32)
}

/// Node `n` is an end of an existing edge that `sel` names.
pub open spec fn end_of_selected<E>(edges: Seq<Option<Edge<E>>>, sel: Seq<u32>, n: u32) -> bool {
    exists|i: int| #[trigger] selected(edges, sel, i) && touches(edges[i]->0, n)
}

/// Node `n` is an end of an existing edge that `sel` does not name.
pub open spec fn end_of_unselected<E>(edges: Seq<Option<Edge<E>>>, sel: Seq<u32>, n: u32) -> bool {
    exists|i: int|
        0 <= i < edges.len() && #[trigger] edges[i] is Some && !sel.contains(i as u32) && touches(edges[i]->0, n)
}

/// The nodes below `k` that are ends of selected edges, in increasing order.
pub open spec fn selected_ends<E>(edges: Seq<Option<Edge<E>>>, sel: Seq<u32>, k: int) -> Seq<u32>
    decreases k,
{
    if k <= 0 {
        seq![]
    } else if end_of_selected(edges, sel, (k - 1) as u32) {
        selected_ends(edges, sel, k - 1).push((k - 1) as u32)
    } else {
        selected_ends(edges, sel, k - 1)
    }
}

/// The nodes below `k` that are ends both of selected and of other
/// edges, in increasing order.
pub open spec fn shared_ends<E>(edges: Seq<Option<Edge<E>>>, sel: Seq<u32>, k: int) -> Seq<u32>
    decreases k,
{
    if k <= 0 {
        seq![]
    } else if end_of_selected(edges, sel, (k - 1) as u32) && end_of_unselected(edges, sel, (k - 1) as u32) {
        shared_ends(edges, sel, k - 1).push((k - 1) as u32)
    } else {
        shared_ends(edges, sel, k - 1)
    }
}

/// Where node `n` goes when the nodes `split` get copies with ids `base`,
/// `base + 1`, ...: to its copy, or nowhere else.
pub open spec fn moved_to(split: Seq<u32>, base: int, n: u32) -> u32
    decreases split.len(),
{
    if split.len() == 0 {
        n
    } else if split.last() == n {
        (base + split.len() - 1) as u32
    } else {
        moved_to(split.drop_last(), base, n)
    }
}

/// One flag per slot: whether `sel` names the slot.
fn selection_flags(count: usize, sel: &[u32]) -> (flags: Vec<bool>)
    requires
        count <= u32::MAX,
    ensures
        flags@.len() == count,
        forall|i: int| 0 <= i < count ==> (#[trigger] flags@[i] <==> sel@.contains(i as u32)),
{
    let mut flags: Vec<bool> = Vec::new();
    while flags.len() < count
        invariant
            flags@.len() <= count,
            forall|i: int| 0 <= i < flags@.len() ==> !#[trigger] flags@[i],
        decreases count - flags@.len(),
    {
        flags.push(false);
    }
    let mut k: usize = 0;
    while k < sel.len()
        invariant
            k <= sel@.len(),
            count <= u32::MAX,
            flags@.len() == count,
            forall|i: int| 0 <= i < count ==> (#[trigger] flags@[i] <==> sel@.take(k as int).contains(i as u32)),
        decreases sel@.len() - k,
    {
        let e = sel[k];
        let ghost before = flags@;
        if (e as usize) < count {
            flags.set(e as usize, true);
        }
        proof {
            assert(sel@.take(k + 1) =~= sel@.take(k as int).push(e));
            assert forall|i: int| 0 <= i < count implies (#[trigger] flags@[i] <==> sel@.take(k + 1).contains(i as u32)) by {
                if sel@.take(k as int).contains(i as u32) {
                    let t = sel@.take(k as int);
                    let q = choose|q: int| 0 <= q < t.len() && #[trigger] t[q] == i as u32;
                    assert(sel@.take(k + 1)[q] == i as u32);
                }
                if i == e as int {
                    assert(sel@.take(k + 1)[k as int] == e);
                }
                if sel@.take(k + 1).contains(i as u32) {
                    let t = sel@.take(k + 1);
                    let q = choose|q: int| 0 <= q < t.len() && #[trigger] t[q] == i as u32;
                    if q < k {
                        assert(sel@.take(k as int)[q] == i as u32);
                    }
                }
            }
        }
        k = k + 1;
    }
    assert(sel@.take(k as int) =~= sel@);
    flags
}

/// `n` flags, all false.
fn no_flags(n: usize) -> (flags: Vec<bool>)
    ensures
        flags@.len() == n,
        forall|i: int| 0 <= i < n ==> !#[trigger] flags@[i],
{
    let mut flags: Vec<bool> = Vec::new();
    while flags.len() < n
        invariant
            flags@.len() <= n,
            forall|i: int| 0 <= i < flags@.len() ==> !#[trigger] flags@[i],
        decreases n - flags@.len(),
    {
        flags.push(false);
    }
    flags
}

impl<N, E> Graph<N, E> {
    /// For each node, whether it is an end of a selected edge, and whether
    /// it is an end of an edge that is not selected.
    fn end_flags(&self, sel_flags: &Vec<bool>, Ghost(sel): Ghost<Seq<u32>>) -> (r: (Vec<bool>, Vec<bool>))
        requires
            self.wf(),
            sel_flags@.len() == self.edges@.len(),
            forall|i: int| 0 <= i < self.edges@.len() ==> (#[trigger] sel_flags@[i] <==> sel.contains(i as u32)),
        ensures
            r.0@.len() == self.nodes@.len(),
            r.1@.len() == self.nodes@.len(),
            forall|n: int| 0 <= n < self.nodes@.len() ==> (#[trigger] r.0@[n] <==> end_of_selected(self.edges@, sel, n as u32)),
            forall|n: int| 0 <= n < self.nodes@.len() ==> (#[trigger] r.1@[n] <==> end_of_unselected(self.edges@, sel, n as u32)),
    {
        let nn = self.nodes.len();
        let mut ends_sel = no_flags(nn);
        let mut ends_other = no_flags(nn);
        let mut i: usize = 0;
        while i < self.edges.len()
            invariant
                self.wf(),
                nn == self.nodes@.len(),
                i <= self.edges@.len(),
                sel_flags@.len() == self.edges@.len(),
                forall|j: int| 0 <= j < self.edges@.len() ==> (#[trigger] sel_flags@[j] <==> sel.contains(j as u32)),
                ends_sel@.len() == nn,
                ends_other@.len() == nn,
                forall|n: int| 0 <= n < nn ==> (#[trigger] ends_sel@[n] <==> exists|j: int|
                    0 <= j < i && #[trigger] selected(self.edges@, sel, j) && touches(self.edges@[j]->0, n as u32)),
                forall|n: int| 0 <= n < nn ==> (#[trigger] ends_other@[n] <==> exists|j: int|
                    0 <= j < i && #[trigger] self.edges@[j] is Some && !sel.contains(j as u32) && touches(self.edges@[j]->0, n as u32)),
            decreases self.edges@.len() - i,
        {
            let ghost s0 = ends_sel@;
            let ghost o0 = ends_other@;
            match &self.edges[i] {
                Some(e) => {
                    proof {
                        assert(self.edge_live(i as int));
                    }
                    if sel_flags[i] {
                        ends_sel.set(e.a as usize, true);
                        ends_sel.set(e.b as usize, true);
                    } else {
                        ends_other.set(e.a as usize, true);
                        ends_other.set(e.b as usize, true);
                    }
                },
                None => {},
            }
            proof {
                assert forall|n: int| 0 <= n < nn implies (#[trigger] ends_sel@[n] <==> exists|j: int|
                    0 <= j < i + 1 && #[trigger] selected(self.edges@, sel, j) && touches(self.edges@[j]->0, n as u32)) by {
                    if exists|j: int| 0 <= j < i && #[trigger] selected(self.edges@, sel, j) && touches(self.edges@[j]->0, n as u32) {
                        assert(s0[n]);
                    }
                    if ends_sel@[n] && !s0[n] {
                        assert(selected(self.edges@, sel, i as int) && touches(self.edges@[i as int]->0, n as u32));
                    }
                    if !ends_sel@[n] {
                        assert(!s0[n]);
                        assert(!(selected(self.edges@, sel, i as int) && touches(self.edges@[i as int]->0, n as u32)));
                    }
                }
                assert forall|n: int| 0 <= n < nn implies (#[trigger] ends_other@[n] <==> exists|j: int|
                    0 <= j < i + 1 && #[trigger] self.edges@[j] is Some && !sel.contains(j as u32) && touches(self.edges@[j]->0, n as u32)) by {
                    if exists|j: int| 0 <= j < i && #[trigger] self.edges@[j] is Some && !sel.contains(j as u32) && touches(self.edges@[j]->0, n as u32) {
                        assert(o0[n]);
                    }
                    if ends_other@[n] && !o0[n] {
                        assert(self.edges@[i as int] is Some && !sel.contains(i as u32) && touches(self.edges@[i as int]->0, n as u32));
                    }
                    if !ends_other@[n] {
                        assert(!o0[n]);
                        assert(!(self.edges@[i as int] is Some && !sel.contains(i as u32) && touches(self.edges@[i as int]->0, n as u32)));
                    }
                }
            }
            i = i + 1;
        }
        (ends_sel, ends_other)
    }
}

/// A strictly increasing list of nodes below `base` sends each listed node
/// to its copy at `base` plus its position, and every other node to itself.
proof fn lemma_moved_to(split: Seq<u32>, base: int, n: u32)
    requires
        forall|k: int| 0 <= k < split.len() ==> #[trigger] split[k] < base,
        forall|a: int, b: int| 0 <= a < b < split.len() ==> #[trigger] split[a] < #[trigger] split[b],
        base + split.len() <= u32::MAX,
    ensures
        !split.contains(n) ==> moved_to(split, base, n) == n,
        split.contains(n) ==> base <= moved_to(split, base, n) < base + split.len()
            && split[moved_to(split, base, n) - base] == n,
    decreases split.len(),
{
    if split.len() > 0 {
        let prev = split.drop_last();
        lemma_moved_to(prev, base, n);
        if split.last() != n {
            if split.contains(n) {
                let q = choose|q: int| 0 <= q < split.len() && split[q] == n;
                assert(prev[q] == n);
            }
            if prev.contains(n) {
                let q = choose|q: int| 0 <= q < prev.len() && prev[q] == n;
                assert(split[q] == n);
            }
        } else {
            assert(split[split.len() - 1] == n);
        }
    }
}

/// `moved_to` after one more listed node.
proof fn lemma_moved_to_push(split: Seq<u32>, x: u32, base: int, n: u32)
    ensures
        moved_to(split.push(x), base, n) == if x == n {
            (base + split.len()) as u32
        } else {
            moved_to(split, base, n)
        },
{
    assert(split.push(x).drop_last() =~= split);
}

/// The ends lists are increasing and below their bound.
proof fn lemma_ends_sorted<E>(edges: Seq<Option<Edge<E>>>, sel: Seq<u32>, k: int)
    requires
        k <= u32::MAX + 1,
    ensures
        forall|q: int| 0 <= q < selected_ends(edges, sel, k).len() ==> #[trigger] selected_ends(edges, sel, k)[q] < k
            && end_of_selected(edges, sel, selected_ends(edges, sel, k)[q]),
        forall|q: int| 0 <= q < shared_ends(edges, sel, k).len() ==> #[trigger] shared_ends(edges, sel, k)[q] < k
            && end_of_selected(edges, sel, shared_ends(edges, sel, k)[q])
            && end_of_unselected(edges, sel, shared_ends(edges, sel, k)[q]),
        forall|a: int, b: int|
            0 <= a < b < shared_ends(edges, sel, k).len() ==> #[trigger] shared_ends(edges, sel, k)[a] < #[trigger] shared_ends(
                edges,
                sel,
                k,
            )[b],
        shared_ends(edges, sel, k).len() <= k || k < 0,
        forall|n: u32| n < k && end_of_selected(edges, sel, n) && end_of_unselected(edges, sel, n)
            ==> #[trigger] shared_ends(edges, sel, k).contains(n),
    decreases k,
{
    if k > 0 {
        lemma_ends_sorted(edges, sel, k - 1);
        let s = shared_ends(edges, sel, k);
        let p = shared_ends(edges, sel, k - 1);
        let t = selected_ends(edges, sel, k);
        let tp = selected_ends(edges, sel, k - 1);
        assert forall|q: int| 0 <= q < t.len() implies #[trigger] t[q] < k && end_of_selected(edges, sel, t[q]) by {
            if q < tp.len() {
                assert(t[q] == tp[q]);
            }
        }
        assert forall|q: int| 0 <= q < s.len() implies #[trigger] s[q] < k && end_of_selected(edges, sel, s[q])
            && end_of_unselected(edges, sel, s[q]) by {
            if q < p.len() {
                assert(s[q] == p[q]);
            }
        }
        assert forall|a: int, b: int| 0 <= a < b < s.len() implies #[trigger] s[a] < #[trigger] s[b] by {
            assert(s[a] == p[a]);
            if b < p.len() {
                assert(s[b] == p[b]);
            }
        }
        assert forall|n: u32| n < k && end_of_selected(edges, sel, n) && end_of_unselected(edges, sel, n)
            implies #[trigger] s.contains(n) by {
            if n < k - 1 {
                assert(p.contains(n));
                let q = choose|q: int| 0 <= q < p.len() && p[q] == n;
                assert(s[q] == n);
            } else {
                assert(s[s.len() - 1] == n);
            }
        }
    }
}

impl<N: Copy, E> Graph<N, E> {
    /// Point live edge `id` at nodes `a` and `b`, keeping its stroke and geometry.
    fn repoint_edge(&mut self, id: usize, a: u32, b: u32)
        requires
            old(self).wf(),
            old(self).edge_live(id as int),
            a != b,
            old(self).node_live(a as int),
            old(self).node_live(b as int),
        ensures
            final(self).wf(),
            final(self).edges@ == old(self).edges@.update(id as int, Some(Edge { a, b, ..old(self).edges@[id as int]->0 })),
            final(self).nodes@ == old(self).nodes@,
            final(self).same_extras(old(self)),
            final(self).geom_ver == old(self).geom_ver,
    {
        match &mut self.edges[id] {
            Some(e) => {
                e.a = a;
                e.b = b;
            },
            None => {},
        }
        proof {
            assert forall|i: int| #[trigger] self.edge_live(i) implies {
                let e = self.edges@[i]->0;
                &&& e.a != e.b
                &&& self.node_live(e.a as int)
                &&& self.node_live(e.b as int)
            } by {
                if i != id {
                    assert(old(self).edge_live(i));
                }
            }
            self.lemma_wf_after_edge_change(old(self));
        }
    }

    /// The nodes that move when the edges `edge_ids` are dragged: the ends
    /// of the existing ones, in increasing order. With `split_shared`, each
    /// such end that an edge outside `edge_ids` also uses gets a copy (in
    /// increasing order, with the next free ids), the dragged edges are
    /// pointed at the copies, and, when any copy was made, only the copies
    /// move. Returns the nodes that move and the nodes that were copied.
    pub fn nodes_to_translate(&mut self, edge_ids: &[u32], split_shared: bool) -> (r: (Vec<u32>, Vec<u32>))
        requires
            old(self).wf(),
            2 * old(self).nodes@.len() < u32::MAX,
        ensures
            final(self).wf(),
            !split_shared ==> r.0@ == selected_ends(old(self).edges@, edge_ids@, old(self).nodes@.len() as int)
                && r.1@.len() == 0 && *final(self) == *old(self),
            split_shared ==> {
                let ends = selected_ends(old(self).edges@, edge_ids@, old(self).nodes@.len() as int);
                let shared = shared_ends(old(self).edges@, edge_ids@, old(self).nodes@.len() as int);
                let base = old(self).nodes@.len() as int;
                &&& r.1@ == shared
                &&& final(self).nodes@ == old(self).nodes@ + shared.map_values(|n: u32| old(self).nodes@[n as int])
                &&& final(self).edges@.len() == old(self).edges@.len()
                &&& forall|i: int|
                    0 <= i < old(self).edges@.len() ==> #[trigger] final(self).edges@[i] == if selected(
                        old(self).edges@,
                        edge_ids@,
                        i,
                    ) {
                        Some(
                            Edge {
                                a: moved_to(shared, base, old(self).edges@[i]->0.a),
                                b: moved_to(shared, base, old(self).edges@[i]->0.b),
                                ..old(self).edges@[i]->0
                            },
                        )
                    } else {
                        old(self).edges@[i]
                    }
                &&& r.0@ == if shared.len() > 0 {
                    Seq::new(shared.len(), |k: int| (base + k) as u32)
                } else {
                    ends
                }
                &&& final(self).geom_ver == wrapping_advance(old(self).geom_ver, shared.len())
                &&& final(self).same_extras(old(self))
            },
    {
        let ghost g0 = *self;
        let ghost sel = edge_ids@;
        let nn = self.nodes.len();
        let ne = self.edges.len();
        let sel_flags = selection_flags(ne, edge_ids);
        let (fs, fo) = self.end_flags(&sel_flags, Ghost(sel));
        proof {
            lemma_ends_sorted(g0.edges@, sel, nn as int);
        }
        let mut ends: Vec<u32> = Vec::new();
        let mut n: usize = 0;
        while n < nn
            invariant
                n <= nn,
                nn == g0.nodes@.len(),
                2 * nn < u32::MAX,
                fs@.len() == nn,
                forall|x: int| 0 <= x < nn ==> (#[trigger] fs@[x] <==> end_of_selected(g0.edges@, sel, x as u32)),
                ends@ == selected_ends(g0.edges@, sel, n as int),
            decreases nn - n,
        {
            if fs[n] {
                ends.push(n as u32);
            }
            n = n + 1;
        }
        if !split_shared {
            return (ends, Vec::new());
        }
        let mut shared: Vec<u32> = Vec::new();
        let mut n: usize = 0;
        while n < nn
            invariant
                n <= nn,
                nn == g0.nodes@.len(),
                2 * nn < u32::MAX,
                fs@.len() == nn,
                fo@.len() == nn,
                forall|x: int| 0 <= x < nn ==> (#[trigger] fs@[x] <==> end_of_selected(g0.edges@, sel, x as u32)),
                forall|x: int| 0 <= x < nn ==> (#[trigger] fo@[x] <==> end_of_unselected(g0.edges@, sel, x as u32)),
                shared@ == shared_ends(g0.edges@, sel, n as int),
            decreases nn - n,
        {
            if fs[n] && fo[n] {
                shared.push(n as u32);
            }
            n = n + 1;
        }
        proof {
            lemma_ends_sorted(g0.edges@, sel, nn as int);
        }
        let ghost sh = shared@;
        // Copy each shared node.
        let mut k: usize = 0;
        while k < shared.len()
            invariant
                g0.wf(),
                self.wf(),
                nn == g0.nodes@.len(),
                2 * nn < u32::MAX,
                sh == shared@,
                sh == shared_ends(g0.edges@, sel, nn as int),
                sh.len() <= nn,
                forall|q: int| 0 <= q < sh.len() ==> #[trigger] sh[q] < nn && end_of_selected(g0.edges@, sel, sh[q]),
                k <= sh.len(),
                self.nodes@ == g0.nodes@ + sh.take(k as int).map_values(|x: u32| g0.nodes@[x as int]),
                self.edges@ == g0.edges@,
                self.same_extras(&g0),
                self.geom_ver == wrapping_advance(g0.geom_ver, k as nat),
            decreases sh.len() - k,
        {
            let x = shared[k];
            proof {
                assert(end_of_selected(g0.edges@, sel, x));
                let j = choose|j: int| #[trigger] selected(g0.edges@, sel, j) && touches(g0.edges@[j]->0, x);
                assert(g0.edge_live(j));
                assert(g0.node_live(x as int));
                assert(self.nodes@[x as int] == g0.nodes@[x as int]);
            }
            let d: N = match &self.nodes[x as usize] {
                Some(d) => *d,
                None => {
                    proof {
                        assert(false);
                    }
                    return (Vec::new(), Vec::new());
                },
            };
            let ghost before = *self;
            self.add_node(d);
            proof {
                lemma_wrapping_step(g0.geom_ver, k as nat, before.geom_ver);
                assert(sh.take(k + 1) =~= sh.take(k as int).push(x));
                assert(sh.take(k + 1).map_values(|y: u32| g0.nodes@[y as int]) =~= sh.take(k as int).map_values(
                    |y: u32| g0.nodes@[y as int],
                ).push(g0.nodes@[x as int]));
                assert(self.nodes@ =~= g0.nodes@ + sh.take(k + 1).map_values(|y: u32| g0.nodes@[y as int]));
            }
            k = k + 1;
        }
        assert(sh.take(k as int) =~= sh);
        let ghost g1 = *self;
        // Where each old node goes.
        let mut new_of: Vec<u32> = Vec::new();
        let mut n: usize = 0;
        while n < nn
            invariant
                n <= nn,
                2 * nn < u32::MAX,
                new_of@.len() == n,
                forall|x: int| 0 <= x < n ==> #[trigger] new_of@[x] == x as u32,
            decreases nn - n,
        {
            new_of.push(n as u32);
            n = n + 1;
        }
        let mut k: usize = 0;
        while k < shared.len()
            invariant
                nn == g0.nodes@.len(),
                2 * nn < u32::MAX,
                sh == shared@,
                sh.len() <= nn,
                forall|q: int| 0 <= q < sh.len() ==> #[trigger] sh[q] < nn,
                k <= sh.len(),
                new_of@.len() == nn,
                forall|x: int| 0 <= x < nn ==> #[trigger] new_of@[x] == moved_to(sh.take(k as int), nn as int, x as u32),
            decreases sh.len() - k,
        {
            let x = shared[k];
            let ghost before = new_of@;
            new_of.set(x as usize, (nn + k) as u32);
            proof {
                assert(sh.take(k + 1) =~= sh.take(k as int).push(x));
                assert forall|y: int| 0 <= y < nn implies #[trigger] new_of@[y] == moved_to(sh.take(k + 1), nn as int, y as u32) by {
                    lemma_moved_to_push(sh.take(k as int), x, nn as int, y as u32);
                    if y != x as int {
                        assert(new_of@[y] == before[y]);
                    }
                }
            }
            k = k + 1;
        }
        assert(sh.take(k as int) =~= sh);
        // Point the dragged edges at the copies.
        let mut i: usize = 0;
        while i < ne
            invariant
                g1.wf(),
                self.wf(),
                nn == g0.nodes@.len(),
                ne == g0.edges@.len(),
                2 * nn < u32::MAX,
                sh == shared_ends(g0.edges@, sel, nn as int),
                forall|q: int| 0 <= q < sh.len() ==> #[trigger] sh[q] < nn,
                forall|a: int, b: int| 0 <= a < b < sh.len() ==> #[trigger] sh[a] < #[trigger] sh[b],
                sh.len() <= nn,
                g1.nodes@ == g0.nodes@ + sh.map_values(|x: u32| g0.nodes@[x as int]),
                g1.edges@ == g0.edges@,
                g0.wf(),
                sel_flags@.len() == ne,
                forall|j: int| 0 <= j < ne ==> (#[trigger] sel_flags@[j] <==> sel.contains(j as u32)),
                new_of@.len() == nn,
                forall|x: int| 0 <= x < nn ==> #[trigger] new_of@[x] == moved_to(sh, nn as int, x as u32),
                i <= ne,
                self.nodes@ == g1.nodes@,
                self.edges@.len() == ne,
                self.same_extras(&g1),
                self.geom_ver == g1.geom_ver,
                forall|j: int|
                    0 <= j < ne ==> #[trigger] self.edges@[j] == if j < i && selected(g0.edges@, sel, j) {
                        Some(
                            Edge {
                                a: moved_to(sh, nn as int, g0.edges@[j]->0.a),
                                b: moved_to(sh, nn as int, g0.edges@[j]->0.b),
                                ..g0.edges@[j]->0
                            },
                        )
                    } else {
                        g0.edges@[j]
                    },
            decreases ne - i,
        {
            if sel_flags[i] {
                let ends_of = match &self.edges[i] {
                    Some(e) => Some((e.a, e.b)),
                    None => None,
                };
                match ends_of {
                    Some((a, b)) => {
                        proof {
                            assert(g0.edge_live(i as int));
                            assert(self.edges@[i as int] == g0.edges@[i as int]);
                            assert(a != b && g0.node_live(a as int) && g0.node_live(b as int));
                            lemma_moved_to(sh, nn as int, a);
                            lemma_moved_to(sh, nn as int, b);
                            let na = moved_to(sh, nn as int, a);
                            let nb = moved_to(sh, nn as int, b);
                            if na >= nn && nb >= nn {
                                assert(sh[na - nn] == a);
                                assert(sh[nb - nn] == b);
                            }
                            assert(self.node_live(na as int)) by {
                                if na >= nn {
                                    assert(self.nodes@[na as int] == g0.nodes@[sh[na - nn] as int]);
                                } else {
                                    assert(self.nodes@[na as int] == g0.nodes@[na as int]);
                                }
                            }
                            assert(self.node_live(nb as int)) by {
                                if nb >= nn {
                                    assert(self.nodes@[nb as int] == g0.nodes@[sh[nb - nn] as int]);
                                } else {
                                    assert(self.nodes@[nb as int] == g0.nodes@[nb as int]);
                                }
                            }
                        }
                        let na = new_of[a as usize];
                        let nb = new_of[b as usize];
                        let ghost before = *self;
                        self.repoint_edge(i, na, nb);
                        proof {
                            assert forall|j: int| 0 <= j < ne implies #[trigger] self.edges@[j] == if j < i + 1 && selected(
                                g0.edges@,
                                sel,
                                j,
                            ) {
                                Some(
                                    Edge {
                                        a: moved_to(sh, nn as int, g0.edges@[j]->0.a),
                                        b: moved_to(sh, nn as int, g0.edges@[j]->0.b),
                                        ..g0.edges@[j]->0
                                    },
                                )
                            } else {
                                g0.edges@[j]
                            } by {
                                if j != i {
                                    assert(self.edges@[j] == before.edges@[j]);
                                }
                            }
                        }
                    },
                    None => {},
                }
            }
            i = i + 1;
        }
        // The nodes that move.
        let mut moving: Vec<u32> = Vec::new();
        if shared.len() > 0 {
            let mut k: usize = 0;
            while k < shared.len()
                invariant
                    k <= sh.len(),
                    sh == shared@,
                    sh.len() <= nn,
                    2 * nn < u32::MAX,
                    moving@ == Seq::new(k as nat, |q: int| (nn + q) as u32),
                decreases sh.len() - k,
            {
                moving.push((nn + k) as u32);
                k = k + 1;
                assert(moving@ =~= Seq::new(k as nat, |q: int| (nn + q) as u32));
            }
        } else {
            moving = ends;
        }
        proof {
            assert forall|j: int| 0 <= j < ne implies #[trigger] self.edges@[j] == if selected(g0.edges@, sel, j) {
                Some(
                    Edge {
                        a: moved_to(sh, nn as int, g0.edges@[j]->0.a),
                        b: moved_to(sh, nn as int, g0.edges@[j]->0.b),
                        ..g0.edges@[j]->0
                    },
                )
            } else {
                g0.edges@[j]
            } by {}
        }
        (moving, shared)
    }
}

/// After dragged edges are detached, no dragged edge shares a node with an
/// edge that stays: every shared end was replaced by its copy.
pub proof fn lemma_detached_edges_share_no_node<E>(
    old_edges: Seq<Option<Edge<E>>>,
    new_edges: Seq<Option<Edge<E>>>,
    sel: Seq<u32>,
    base: int,
    i: int,
    j: int,
    n: u32,
)
    requires
        0 <= base,
        2 * base < u32::MAX,
        forall|k: int| 0 <= k < old_edges.len() && #[trigger] old_edges[k] is Some ==> old_edges[k]->0.a < base && old_edges[k]->0.b < base,
        new_edges.len() == old_edges.len(),
        forall|k: int|
            0 <= k < old_edges.len() ==> #[trigger] new_edges[k] == if selected(old_edges, sel, k) {
                Some(
                    Edge {
                        a: moved_to(shared_ends(old_edges, sel, base), base, old_edges[k]->0.a),
                        b: moved_to(shared_ends(old_edges, sel, base), base, old_edges[k]->0.b),
                        ..old_edges[k]->0
                    },
                )
            } else {
                old_edges[k]
            },
        selected(old_edges, sel, i),
        0 <= j < old_edges.len(),
        old_edges[j] is Some,
        !sel.contains(j as u32),
    ensures
        !(touches(new_edges[i]->0, n) && touches(new_edges[j]->0, n)),
{
    let sh = shared_ends(old_edges, sel, base);
    lemma_ends_sorted(old_edges, sel, base);
    assert(new_edges[j] == old_edges[j]);
    assert(new_edges[i] is Some);
    let e = old_edges[i]->0;
    if touches(new_edges[i]->0, n) && touches(new_edges[j]->0, n) {
        assert(end_of_unselected(old_edges, sel, n));
        assert(n < base);
        lemma_moved_to(sh, base, e.a);
        lemma_moved_to(sh, base, e.b);
        if new_edges[i]->0.a == n {
            assert(!sh.contains(e.a));
            assert(e.a == n);
        } else {
            assert(!sh.contains(e.b));
            assert(e.b == n);
        }
        assert(end_of_selected(old_edges, sel, n));
        assert(sh.contains(n));
    }
}

} // verus!
