//! Tracing the faces of a planar subdivision.
//!
//! The subdivision is given by its half-edges: half-edge `h` runs from
//! vertex `from[h]` to vertex `to[h]`, and `turn[h]` is the vertex that a
//! face boundary arriving along `h` turns towards next (the neighbor that
//! follows the way back in the angular order around `to[h]`; `None` when
//! `to[h]` has no neighbor). Measuring angles is the caller's part; which
//! half-edges make up each boundary is decided here.

use vstd::prelude::*;
use crate::regions::{region_key, region_key_from_edges};

verus! {

/// The longest boundary that is followed: a walk stops after this many half-edges.
pub const MAX_FACE_WALK: usize = 100001;

/// The indices below `n` of the half-edges that leave vertex `v`, in increasing order.
pub open spec fn leaving(from: Seq<usize>, v: usize, n: int) -> Seq<usize>
    decreases n,
{
    if n <= 0 {
        seq![]
    } else if from[n - 1] == v {
        leaving(from, v, n - 1).push((n - 1) as usize)
    } else {
        leaving(from, v, n - 1)
    }
}

/// Half-edge `j` runs from `v` to `w` and is not in `used`.
pub open spec fn candidate(from: Seq<usize>, to: Seq<usize>, v: usize, w: usize, used: Seq<usize>, j: int) -> bool {
    &&& 0 <= j < from.len()
    &&& from[j] == v
    &&& to[j] == w
    &&& !used.contains(j as usize)
}

/// `j` is the least candidate half-edge from `v` to `w`.
pub open spec fn least_candidate(from: Seq<usize>, to: Seq<usize>, v: usize, w: usize, used: Seq<usize>, j: int) -> bool {
    &&& candidate(from, to, v, w, used, j)
    &&& forall|i: int| 0 <= i < j ==> !#[trigger] candidate(from, to, v, w, used, i)
}

/// Some half-edge runs back along half-edge `h`.
pub open spec fn has_reverse(from: Seq<usize>, to: Seq<usize>, h: int) -> bool {
    exists|j: int| 0 <= j < from.len() && #[trigger] from[j] == to[h] && to[j] == from[h]
}

/// A boundary arriving along `h` goes on along `j`: `h` has a way back,
/// and `j` is the least half-edge not in `used` from the end of `h` to the
/// vertex it turns towards.
pub open spec fn continues_to(
    from: Seq<usize>,
    to: Seq<usize>,
    turn: Seq<Option<usize>>,
    used: Seq<usize>,
    h: int,
    j: int,
) -> bool {
    &&& turn[h] is Some
    &&& has_reverse(from, to, h)
    &&& least_candidate(from, to, to[h], turn[h]->0, used, j)
}

/// A boundary arriving along `h` can go on.
pub open spec fn can_continue(from: Seq<usize>, to: Seq<usize>, turn: Seq<Option<usize>>, used: Seq<usize>, h: int) -> bool {
    exists|j: int| continues_to(from, to, turn, used, h, j)
}

/// `walk` is the boundary traced after the half-edges `before` were used:
/// it starts at the least unused half-edge, each step goes on as
/// `continues_to` says, and it stops where it cannot go on or has reached
/// the longest walk.
pub open spec fn walk_ok(
    from: Seq<usize>,
    to: Seq<usize>,
    turn: Seq<Option<usize>>,
    before: Seq<usize>,
    walk: Seq<usize>,
) -> bool {
    &&& 1 <= walk.len() <= MAX_FACE_WALK
    &&& walk[0] < from.len()
    &&& !before.contains(walk[0])
    &&& forall|i: usize| i < walk[0] ==> #[trigger] before.contains(i)
    &&& forall|k: int|
        0 <= k < walk.len() - 1 ==> continues_to(from, to, turn, before + walk.take(k + 1), walk[k] as int, #[trigger] walk[k + 1] as int)
    &&& walk.len() < MAX_FACE_WALK ==> !can_continue(from, to, turn, before + walk, walk.last() as int)
}

/// The walks of `ws` one after the other.
pub open spec fn flat(ws: Seq<Seq<usize>>) -> Seq<usize>
    decreases ws.len(),
{
    if ws.len() == 0 {
        seq![]
    } else {
        flat(ws.drop_last()) + ws.last()
    }
}

/// The walks as sequences.
pub open spec fn walk_seqs(ws: Seq<Vec<usize>>) -> Seq<Seq<usize>> {
    ws.map_values(|w: Vec<usize>| w@)
}

/// Each walk of `ws` is the one traced after the walks before it.
pub open spec fn walks_ok(from: Seq<usize>, to: Seq<usize>, turn: Seq<Option<usize>>, ws: Seq<Seq<usize>>) -> bool {
    forall|f: int| 0 <= f < ws.len() ==> walk_ok(from, to, turn, flat(ws.take(f)), #[trigger] ws[f])
}

/// The lists of half-edges leaving each vertex.
fn leaving_lists(vertex_count: usize, from: &[usize]) -> (out: Vec<Vec<usize>>)
    requires
        forall|j: int| 0 <= j < from@.len() ==> #[trigger] from@[j] < vertex_count,
    ensures
        out@.len() == vertex_count,
        forall|v: int| 0 <= v < vertex_count ==> (#[trigger] out@[v])@ == leaving(from@, v as usize, from@.len() as int),
{
    let mut out: Vec<Vec<usize>> = Vec::new();
    let mut v: usize = 0;
    while v < vertex_count
        invariant
            v <= vertex_count,
            out@.len() == v,
            forall|x: int| 0 <= x < v ==> (#[trigger] out@[x])@ == leaving(from@, x as usize, 0),
        decreases vertex_count - v,
    {
        out.push(Vec::new());
        v = v + 1;
    }
    let mut j: usize = 0;
    while j < from.len()
        invariant
            j <= from@.len(),
            out@.len() == vertex_count,
            forall|i: int| 0 <= i < from@.len() ==> #[trigger] from@[i] < vertex_count,
            forall|x: int| 0 <= x < vertex_count ==> (#[trigger] out@[x])@ == leaving(from@, x as usize, j as int),
        decreases from@.len() - j,
    {
        let v = from[j];
        let ghost prev = out@;
        out[v].push(j);
        assert forall|x: int| 0 <= x < vertex_count implies (#[trigger] out@[x])@ == leaving(from@, x as usize, j + 1) by {
            if x != v {
                assert(out@[x] == prev[x]);
            }
        }
        j = j + 1;
    }
    out
}

/// `leaving` lists exactly the half-edges below `n` that leave `v`, in
/// strictly increasing order.
proof fn lemma_leaving(from: Seq<usize>, v: usize, n: int)
    requires
        0 <= n <= from.len(),
        from.len() <= usize::MAX,
    ensures
        forall|j: int| 0 <= j < n && from[j] == v ==> #[trigger] leaving(from, v, n).contains(j as usize),
        forall|q: int| 0 <= q < leaving(from, v, n).len() ==> #[trigger] leaving(from, v, n)[q] < n && from[leaving(from, v, n)[q] as int] == v,
        forall|a: int, b: int| 0 <= a < b < leaving(from, v, n).len() ==> #[trigger] leaving(from, v, n)[a] < #[trigger] leaving(from, v, n)[b],
    decreases n,
{
    if n > 0 {
        lemma_leaving(from, v, n - 1);
        let prev = leaving(from, v, n - 1);
        if from[n - 1] == v {
            let cur = prev.push((n - 1) as usize);
            assert forall|q: int| 0 <= q < cur.len() implies #[trigger] cur[q] < n && from[cur[q] as int] == v by {
                if q < prev.len() {
                    assert(cur[q] == prev[q]);
                }
            }
            assert forall|a: int, b: int| 0 <= a < b < cur.len() implies #[trigger] cur[a] < #[trigger] cur[b] by {
                assert(cur[a] == prev[a]);
                if b < prev.len() {
                    assert(cur[b] == prev[b]);
                }
            }
            assert forall|j: int| 0 <= j < n && from[j] == v implies #[trigger] cur.contains(j as usize) by {
                if j < n - 1 {
                    assert(prev.contains(j as usize));
                    let q = choose|q: int| 0 <= q < prev.len() && prev[q] == j as usize;
                    assert(cur[q] == j as usize);
                } else {
                    assert(cur[prev.len() as int] == j as usize);
                }
            }
        }
    }
}

/// The position of `j` in a strictly increasing list that contains it.
proof fn lemma_position(s: Seq<usize>, j: usize) -> (q: int)
    requires
        s.contains(j),
    ensures
        0 <= q < s.len(),
        s[q] == j,
{
    choose|q: int| 0 <= q < s.len() && s[q] == j
}

/// The least half-edge of `out_v`, the half-edges leaving `v`, that goes
/// to `w` and is not used.
fn least_unused_to(
    out_v: &Vec<usize>,
    to: &[usize],
    w: usize,
    used: &Vec<bool>,
    Ghost(from): Ghost<Seq<usize>>,
    Ghost(v): Ghost<usize>,
    Ghost(used_set): Ghost<Seq<usize>>,
) -> (r: Option<usize>)
    requires
        from.len() == to@.len(),
        from.len() <= usize::MAX,
        used@.len() == to@.len(),
        out_v@ == leaving(from, v, from.len() as int),
        forall|j: int| 0 <= j < used@.len() ==> (#[trigger] used@[j] <==> used_set.contains(j as usize)),
    ensures
        r matches Some(j) ==> least_candidate(from, to@, v, w, used_set, j as int),
        r is None ==> forall|j: int| !#[trigger] candidate(from, to@, v, w, used_set, j),
{
    proof {
        lemma_leaving(from, v, from.len() as int);
    }
    let mut p: usize = 0;
    while p < out_v.len()
        invariant
            p <= out_v@.len(),
            from.len() == to@.len(),
            from.len() <= usize::MAX,
            used@.len() == to@.len(),
            out_v@ == leaving(from, v, from.len() as int),
            forall|j: int| 0 <= j < used@.len() ==> (#[trigger] used@[j] <==> used_set.contains(j as usize)),
            forall|q: int| 0 <= q < out_v@.len() ==> #[trigger] out_v@[q] < from.len() && from[out_v@[q] as int] == v,
            forall|a: int, b: int| 0 <= a < b < out_v@.len() ==> #[trigger] out_v@[a] < #[trigger] out_v@[b],
            forall|j: int| 0 <= j < from.len() && from[j] == v ==> #[trigger] out_v@.contains(j as usize),
            forall|q: int| 0 <= q < p ==> !candidate(from, to@, v, w, used_set, #[trigger] out_v@[q] as int),
        decreases out_v@.len() - p,
    {
        let j = out_v[p];
        if to[j] == w && !used[j] {
            proof {
                assert(candidate(from, to@, v, w, used_set, j as int));
                assert forall|i: int| 0 <= i < j implies !#[trigger] candidate(from, to@, v, w, used_set, i) by {
                    if candidate(from, to@, v, w, used_set, i) {
                        let q = lemma_position(out_v@, i as usize);
                        if q >= p {
                            if q > p {
                                assert(out_v@[p as int] < out_v@[q]);
                            }
                        }
                    }
                }
            }
            return Some(j);
        }
        p = p + 1;
    }
    proof {
        assert forall|j: int| !#[trigger] candidate(from, to@, v, w, used_set, j) by {
            if candidate(from, to@, v, w, used_set, j) {
                let q = lemma_position(out_v@, j as usize);
            }
        }
    }
    None
}

/// Whether some half-edge of `out_v`, the half-edges leaving `v`, goes to `u`.
fn leaves_to(out_v: &Vec<usize>, to: &[usize], u: usize, Ghost(from): Ghost<Seq<usize>>, Ghost(v): Ghost<usize>) -> (r: bool)
    requires
        from.len() == to@.len(),
        from.len() <= usize::MAX,
        out_v@ == leaving(from, v, from.len() as int),
    ensures
        r == exists|j: int| 0 <= j < from.len() && #[trigger] from[j] == v && to@[j] == u,
{
    proof {
        lemma_leaving(from, v, from.len() as int);
    }
    let mut p: usize = 0;
    while p < out_v.len()
        invariant
            p <= out_v@.len(),
            from.len() == to@.len(),
            from.len() <= usize::MAX,
            out_v@ == leaving(from, v, from.len() as int),
            forall|q: int| 0 <= q < out_v@.len() ==> #[trigger] out_v@[q] < from.len() && from[out_v@[q] as int] == v,
            forall|j: int| 0 <= j < from.len() && from[j] == v ==> #[trigger] out_v@.contains(j as usize),
            forall|q: int| 0 <= q < p ==> to@[#[trigger] out_v@[q] as int] != u,
        decreases out_v@.len() - p,
    {
        let j = out_v[p];
        if to[j] == u {
            assert(from[j as int] == v);
            return true;
        }
        p = p + 1;
    }
    proof {
        assert forall|j: int| 0 <= j < from.len() && #[trigger] from[j] == v implies to@[j] != u by {
            let q = lemma_position(out_v@, j as usize);
        }
    }
    false
}

/// `s.push(x)` holds what `s` holds and `x`.
proof fn lemma_push_contains(s: Seq<usize>, x: usize, y: usize)
    ensures
        s.push(x).contains(y) <==> (s.contains(y) || x == y),
{
    if s.contains(y) {
        let q = choose|q: int| 0 <= q < s.len() && s[q] == y;
        assert(s.push(x)[q] == y);
    }
    if x == y {
        assert(s.push(x)[s.len() as int] == y);
    }
    if s.push(x).contains(y) {
        let q = choose|q: int| 0 <= q < s.push(x).len() && s.push(x)[q] == y;
        if q < s.len() {
            assert(s[q] == y);
        }
    }
}

/// Trace the boundary that starts at half-edge `start`, the least unused
/// one, marking its half-edges used; `before` holds the half-edges used so far.
fn walk_from(
    start: usize,
    from: &[usize],
    to: &[usize],
    turn: &[Option<usize>],
    out: &Vec<Vec<usize>>,
    used: &mut Vec<bool>,
    Ghost(before): Ghost<Seq<usize>>,
) -> (walk: Vec<usize>)
    requires
        from@.len() <= usize::MAX,
        to@.len() == from@.len(),
        turn@.len() == from@.len(),
        old(used)@.len() == from@.len(),
        forall|j: int| 0 <= j < from@.len() ==> #[trigger] from@[j] < out@.len() && to@[j] < out@.len(),
        forall|v: int| 0 <= v < out@.len() ==> (#[trigger] out@[v])@ == leaving(from@, v as usize, from@.len() as int),
        forall|j: int| 0 <= j < from@.len() ==> (#[trigger] old(used)@[j] <==> before.contains(j as usize)),
        start < from@.len(),
        !old(used)@[start as int],
        forall|i: int| 0 <= i < start ==> #[trigger] old(used)@[i],
    ensures
        walk_ok(from@, to@, turn@, before, walk@),
        walk@[0] == start,
        final(used)@.len() == from@.len(),
        forall|j: int| 0 <= j < from@.len() ==> (#[trigger] final(used)@[j] <==> (before + walk@).contains(j as usize)),
        forall|k: int| 0 <= k < walk@.len() ==> #[trigger] walk@[k] < from@.len(),
{
    let ghost m = from@.len();
    let mut walk: Vec<usize> = Vec::new();
    proof {
        lemma_push_contains(before, start, start);
        assert forall|j: int| 0 <= j < m implies (#[trigger] old(used)@.update(start as int, true)[j] <==> (before + seq![start]).contains(
            j as usize,
        )) by {
            assert(before + seq![start] =~= before.push(start));
            lemma_push_contains(before, start, j as usize);
        }
        assert forall|i: usize| i < start implies #[trigger] before.contains(i) by {
            assert(old(used)@[i as int]);
        }
    }
    used.set(start, true);
    walk.push(start);
    assert(walk@ =~= seq![start]);
    let mut cur = start;
    loop
        invariant
            from@.len() == m,
            m <= usize::MAX,
            to@.len() == m,
            turn@.len() == m,
            used@.len() == m,
            forall|j: int| 0 <= j < m ==> #[trigger] from@[j] < out@.len() && to@[j] < out@.len(),
            forall|v: int| 0 <= v < out@.len() ==> (#[trigger] out@[v])@ == leaving(from@, v as usize, m as int),
            1 <= walk@.len() <= MAX_FACE_WALK,
            walk@[0] == start,
            start < m,
            !before.contains(start),
            forall|i: usize| i < start ==> #[trigger] before.contains(i),
            cur == walk@.last(),
            forall|k: int| 0 <= k < walk@.len() ==> #[trigger] walk@[k] < m,
            forall|j: int| 0 <= j < m ==> (#[trigger] used@[j] <==> (before + walk@).contains(j as usize)),
            forall|k: int|
                0 <= k < walk@.len() - 1 ==> continues_to(
                    from@,
                    to@,
                    turn@,
                    before + walk@.take(k + 1),
                    walk@[k] as int,
                    #[trigger] walk@[k + 1] as int,
                ),
        ensures
            1 <= walk@.len() <= MAX_FACE_WALK,
            walk@[0] == start,
            forall|k: int| 0 <= k < walk@.len() ==> #[trigger] walk@[k] < m,
            used@.len() == m,
            forall|j: int| 0 <= j < m ==> (#[trigger] used@[j] <==> (before + walk@).contains(j as usize)),
            forall|k: int|
                0 <= k < walk@.len() - 1 ==> continues_to(
                    from@,
                    to@,
                    turn@,
                    before + walk@.take(k + 1),
                    walk@[k] as int,
                    #[trigger] walk@[k + 1] as int,
                ),
            walk@.len() < MAX_FACE_WALK ==> !can_continue(from@, to@, turn@, before + walk@, walk@.last() as int),
        decreases MAX_FACE_WALK - walk@.len(),
    {
        let v = to[cur];
        let u = from[cur];
        let w = match turn[cur] {
            Some(w) => w,
            None => {
                break;
            },
        };
        if !leaves_to(&out[v], to, u, Ghost(from@), Ghost(v)) {
            proof {
                assert(!has_reverse(from@, to@, cur as int));
            }
            break;
        }
        let ghost used_set = before + walk@;
        let next = match least_unused_to(&out[v], to, w, used, Ghost(from@), Ghost(v), Ghost(used_set)) {
            Some(j) => j,
            None => {
                proof {
                    assert forall|j: int| !continues_to(from@, to@, turn@, used_set, cur as int, j) by {
                        assert(!candidate(from@, to@, v, w, used_set, j));
                    }
                }
                break;
            },
        };
        if walk.len() >= MAX_FACE_WALK {
            break;
        }
        let ghost old_walk = walk@;
        let ghost old_used = used@;
        used.set(next, true);
        walk.push(next);
        proof {
            assert(continues_to(from@, to@, turn@, used_set, cur as int, next as int));
            assert(before + walk@ =~= (before + old_walk).push(next));
            assert forall|j: int| 0 <= j < m implies (#[trigger] used@[j] <==> (before + walk@).contains(j as usize)) by {
                lemma_push_contains(before + old_walk, next, j as usize);
                if j != next {
                    assert(used@[j] == old_used[j]);
                }
            }
            assert forall|k: int| 0 <= k < walk@.len() - 1 implies continues_to(
                from@,
                to@,
                turn@,
                before + walk@.take(k + 1),
                walk@[k] as int,
                #[trigger] walk@[k + 1] as int,
            ) by {
                if k < old_walk.len() - 1 {
                    assert(walk@.take(k + 1) =~= old_walk.take(k + 1));
                    assert(walk@[k] == old_walk[k]);
                    assert(walk@[k + 1] == old_walk[k + 1]);
                } else {
                    assert(walk@.take(k + 1) =~= old_walk);
                    assert(walk@[k] == cur);
                }
            }
        }
        cur = next;
    }
    walk
}

/// Trace the boundaries of the faces of the subdivision with half-edges
/// `half_from[h]` to `half_to[h]` on `vertex_count` vertices, where a
/// boundary arriving along `h` turns towards `turn[h]`. Each unused
/// half-edge, in increasing order, starts a boundary; each boundary is
/// followed as far as it goes, and every half-edge ends up in exactly one
/// boundary.
pub fn trace_face_walks(vertex_count: usize, half_from: &[usize], half_to: &[usize], turn: &[Option<usize>]) -> (walks: Vec<Vec<usize>>)
    requires
        half_to@.len() == half_from@.len(),
        turn@.len() == half_from@.len(),
        forall|j: int| 0 <= j < half_from@.len() ==> #[trigger] half_from@[j] < vertex_count && half_to@[j] < vertex_count,
    ensures
        walks_ok(half_from@, half_to@, turn@, walk_seqs(walks@)),
        forall|j: usize| j < half_from@.len() ==> #[trigger] flat(walk_seqs(walks@)).contains(j),
{
    let m = half_from.len();
    let out = leaving_lists(vertex_count, half_from);
    let mut used: Vec<bool> = Vec::new();
    while used.len() < m
        invariant
            used@.len() <= m,
            forall|j: int| 0 <= j < used@.len() ==> !#[trigger] used@[j],
        decreases m - used@.len(),
    {
        used.push(false);
    }
    let mut walks: Vec<Vec<usize>> = Vec::new();
    let mut start: usize = 0;
    while start < m
        invariant
            m == half_from@.len(),
            half_to@.len() == m,
            turn@.len() == m,
            used@.len() == m,
            start <= m,
            forall|j: int| 0 <= j < m ==> #[trigger] half_from@[j] < out@.len() && half_to@[j] < out@.len(),
            forall|v: int| 0 <= v < out@.len() ==> (#[trigger] out@[v])@ == leaving(half_from@, v as usize, m as int),
            forall|j: int| 0 <= j < m ==> (#[trigger] used@[j] <==> flat(walk_seqs(walks@)).contains(j as usize)),
            forall|i: int| 0 <= i < start ==> #[trigger] used@[i],
            walks_ok(half_from@, half_to@, turn@, walk_seqs(walks@)),
        decreases m - start,
    {
        if !used[start] {
            let ghost before = flat(walk_seqs(walks@));
            let ghost old_ws = walk_seqs(walks@);
            let ghost used_before = used@;
            let walk = walk_from(start, half_from, half_to, turn, &out, &mut used, Ghost(before));
            let ghost wv = walk@;
            walks.push(walk);
            proof {
                assert(walk_seqs(walks@) =~= old_ws.push(wv));
                assert(walk_seqs(walks@).drop_last() =~= old_ws);
                assert(flat(walk_seqs(walks@)) == before + wv);
                assert forall|i: int| 0 <= i <= start implies #[trigger] used@[i] by {
                    if i < start {
                        assert(used_before[i]);
                        assert(before.contains(i as usize));
                        let q = choose|q: int| 0 <= q < before.len() && before[q] == i as usize;
                        assert((before + wv)[q] == i as usize);
                    } else {
                        assert((before + wv)[before.len() as int] == start);
                    }
                }
                assert forall|f: int| 0 <= f < walk_seqs(walks@).len() implies walk_ok(
                    half_from@,
                    half_to@,
                    turn@,
                    flat(walk_seqs(walks@).take(f)),
                    #[trigger] walk_seqs(walks@)[f],
                ) by {
                    if f < old_ws.len() {
                        assert(walk_seqs(walks@).take(f) =~= old_ws.take(f));
                        assert(walk_seqs(walks@)[f] == old_ws[f]);
                    } else {
                        assert(walk_seqs(walks@).take(f) =~= old_ws);
                    }
                }
            }
        }
        start = start + 1;
    }
    proof {
        assert forall|j: usize| j < m implies #[trigger] flat(walk_seqs(walks@)).contains(j) by {
            assert(used@[j as int]);
        }
    }
    walks
}

/// `s` with each run of equal neighbors kept once.
pub open spec fn collapse_runs(s: Seq<u32>) -> Seq<u32>
    decreases s.len(),
{
    if s.len() == 0 {
        seq![]
    } else {
        let c = collapse_runs(s.drop_last());
        if c.len() > 0 && c.last() == s.last() {
            c
        } else {
            c.push(s.last())
        }
    }
}

/// The edge sequence of a closed boundary whose half-edges carry the edge
/// ids `s`: runs collapsed, and the last id dropped when it repeats the
/// first.
pub open spec fn boundary_edges(s: Seq<u32>) -> Seq<u32> {
    let c = collapse_runs(s);
    if c.len() >= 2 && c[0] == c.last() {
        c.drop_last()
    } else {
        c
    }
}

/// The edge ids of the half-edges of `walk`.
pub open spec fn walk_edge_ids(half_eid: Seq<u32>, walk: Seq<usize>) -> Seq<u32> {
    walk.map_values(|h: usize| half_eid[h as int])
}

/// The edge sequence of the boundary `walk`, whose half-edge `h` lies on
/// edge `half_eid[h]`, and the region key of that sequence.
pub fn face_edges(half_eid: &[u32], walk: &[usize]) -> (r: (Vec<u32>, u32))
    requires
        forall|k: int| 0 <= k < walk@.len() ==> #[trigger] walk@[k] < half_eid@.len(),
    ensures
        r.0@ == boundary_edges(walk_edge_ids(half_eid@, walk@)),
        r.1 == region_key(r.0@),
{
    let mut seq: Vec<u32> = Vec::new();
    let mut i: usize = 0;
    while i < walk.len()
        invariant
            i <= walk@.len(),
            forall|k: int| 0 <= k < walk@.len() ==> #[trigger] walk@[k] < half_eid@.len(),
            seq@ == collapse_runs(walk_edge_ids(half_eid@, walk@.take(i as int))),
        decreases walk@.len() - i,
    {
        let e = half_eid[walk[i]];
        proof {
            let t = walk_edge_ids(half_eid@, walk@.take(i + 1));
            assert(t.drop_last() =~= walk_edge_ids(half_eid@, walk@.take(i as int)));
            assert(t.last() == e);
        }
        if seq.len() == 0 || seq[seq.len() - 1] != e {
            seq.push(e);
        }
        i = i + 1;
    }
    assert(walk@.take(i as int) =~= walk@);
    if seq.len() >= 2 && seq[0] == seq[seq.len() - 1] {
        seq.pop();
    }
    let key = region_key_from_edges(seq.as_slice());
    (seq, key)
}

/// A boundary uses no half-edge twice, and none used before it.
proof fn lemma_walk_fresh(from: Seq<usize>, to: Seq<usize>, turn: Seq<Option<usize>>, before: Seq<usize>, walk: Seq<usize>)
    requires
        walk_ok(from, to, turn, before, walk),
    ensures
        forall|k: int| 0 <= k < walk.len() ==> !before.contains(#[trigger] walk[k]),
        forall|a: int, b: int| 0 <= a < b < walk.len() ==> #[trigger] walk[a] != #[trigger] walk[b],
{
    assert forall|k: int| 0 <= k < walk.len() implies !before.contains(#[trigger] walk[k]) by {
        if k > 0 {
            let p = k - 1;
            assert(continues_to(from, to, turn, before + walk.take(p + 1), walk[p] as int, walk[p + 1] as int));
            if before.contains(walk[k]) {
                let q = choose|q: int| 0 <= q < before.len() && before[q] == walk[k];
                assert((before + walk.take(k))[q] == walk[k]);
            }
        }
    }
    assert forall|a: int, b: int| 0 <= a < b < walk.len() implies #[trigger] walk[a] != #[trigger] walk[b] by {
        let p = b - 1;
        assert(continues_to(from, to, turn, before + walk.take(p + 1), walk[p] as int, walk[p + 1] as int));
        assert((before + walk.take(b))[before.len() + a] == walk[a]);
    }
}

/// Every half-edge lies on at most one traced boundary, and at most once on it.
pub proof fn lemma_walks_disjoint(from: Seq<usize>, to: Seq<usize>, turn: Seq<Option<usize>>, ws: Seq<Seq<usize>>)
    requires
        walks_ok(from, to, turn, ws),
    ensures
        flat(ws).no_duplicates(),
    decreases ws.len(),
{
    if ws.len() > 0 {
        let prev = ws.drop_last();
        assert forall|f: int| 0 <= f < prev.len() implies walk_ok(from, to, turn, flat(prev.take(f)), #[trigger] prev[f]) by {
            assert(prev.take(f) =~= ws.take(f));
            assert(walk_ok(from, to, turn, flat(ws.take(f)), ws[f]));
        }
        lemma_walks_disjoint(from, to, turn, prev);
        assert(ws.take(ws.len() - 1) =~= prev);
        assert(walk_ok(from, to, turn, flat(ws.take(ws.len() - 1)), ws[ws.len() - 1]));
        lemma_walk_fresh(from, to, turn, flat(prev), ws.last());
        let all = flat(ws);
        let b = flat(prev);
        let w = ws.last();
        assert(all == b + w);
        assert forall|i: int, j: int| 0 <= i < j < all.len() implies all[i] != all[j] by {
            if j >= b.len() && i < b.len() {
                assert(all[j] == w[j - b.len()]);
                assert(b[i] == all[i]);
                assert(b.contains(all[i]));
            } else if i >= b.len() {
                assert(all[i] == w[i - b.len()]);
                assert(all[j] == w[j - b.len()]);
            } else {
                assert(all[i] == b[i]);
                assert(all[j] == b[j]);
            }
        }
    }
}

/// The pieces `(u, v, edge)` of `s` whose ends differ, in order.
pub open spec fn proper_pieces(s: Seq<(usize, usize, u32)>) -> Seq<(usize, usize, u32)>
    decreases s.len(),
{
    if s.len() == 0 {
        seq![]
    } else if s.last().0 != s.last().1 {
        proper_pieces(s.drop_last()).push(s.last())
    } else {
        proper_pieces(s.drop_last())
    }
}

/// The half-edges of the pieces `pieces` (from, to and edge of each): for
/// each piece `(u, v, e)` with `u != v`, in order, the half-edge `u → v`
/// and then its reverse `v → u`, both on edge `e`.
pub fn half_edges(pieces: &[(usize, usize, u32)]) -> (r: (Vec<usize>, Vec<usize>, Vec<u32>))
    requires
        2 * pieces@.len() <= usize::MAX,
    ensures
        r.0@.len() == 2 * proper_pieces(pieces@).len(),
        r.1@.len() == r.0@.len(),
        r.2@.len() == r.0@.len(),
        forall|k: int|
            0 <= k < proper_pieces(pieces@).len() ==> {
                let p = #[trigger] proper_pieces(pieces@)[k];
                &&& r.0@[2 * k] == p.0 && r.1@[2 * k] == p.1 && r.2@[2 * k] == p.2
                &&& r.0@[2 * k + 1] == p.1 && r.1@[2 * k + 1] == p.0 && r.2@[2 * k + 1] == p.2
            },
{
    let mut from: Vec<usize> = Vec::new();
    let mut to: Vec<usize> = Vec::new();
    let mut eid: Vec<u32> = Vec::new();
    let mut i: usize = 0;
    while i < pieces.len()
        invariant
            i <= pieces@.len(),
            2 * pieces@.len() <= usize::MAX,
            from@.len() == 2 * proper_pieces(pieces@.take(i as int)).len(),
            to@.len() == from@.len(),
            eid@.len() == from@.len(),
            proper_pieces(pieces@.take(i as int)).len() <= i,
            forall|k: int|
                0 <= k < proper_pieces(pieces@.take(i as int)).len() ==> {
                    let p = #[trigger] proper_pieces(pieces@.take(i as int))[k];
                    &&& from@[2 * k] == p.0 && to@[2 * k] == p.1 && eid@[2 * k] == p.2
                    &&& from@[2 * k + 1] == p.1 && to@[2 * k + 1] == p.0 && eid@[2 * k + 1] == p.2
                },
        decreases pieces@.len() - i,
    {
        let (u, v, e) = pieces[i];
        let ghost prev = proper_pieces(pieces@.take(i as int));
        proof {
            assert(pieces@.take(i + 1).drop_last() =~= pieces@.take(i as int));
            assert(pieces@.take(i + 1).last() == (u, v, e));
        }
        if u != v {
            from.push(u);
            to.push(v);
            eid.push(e);
            from.push(v);
            to.push(u);
            eid.push(e);
            proof {
                let cur = proper_pieces(pieces@.take(i + 1));
                assert(cur == prev.push((u, v, e)));
                assert forall|k: int| 0 <= k < cur.len() implies {
                    let p = #[trigger] cur[k];
                    &&& from@[2 * k] == p.0 && to@[2 * k] == p.1 && eid@[2 * k] == p.2
                    &&& from@[2 * k + 1] == p.1 && to@[2 * k + 1] == p.0 && eid@[2 * k + 1] == p.2
                } by {
                    if k < prev.len() {
                        assert(cur[k] == prev[k]);
                    }
                }
            }
        }
        i = i + 1;
    }
    assert(pieces@.take(i as int) =~= pieces@);
    (from, to, eid)
}

/// Every half-edge built from pieces has its reverse on the same edge
/// right beside it, and no half-edge starts and ends at one vertex.
pub proof fn lemma_half_edges_paired(
    pieces: Seq<(usize, usize, u32)>,
    from: Seq<usize>,
    to: Seq<usize>,
    eid: Seq<u32>,
    h: int,
)
    requires
        from.len() == 2 * proper_pieces(pieces).len(),
        to.len() == from.len(),
        eid.len() == from.len(),
        forall|k: int|
            0 <= k < proper_pieces(pieces).len() ==> {
                let p = #[trigger] proper_pieces(pieces)[k];
                &&& from[2 * k] == p.0 && to[2 * k] == p.1 && eid[2 * k] == p.2
                &&& from[2 * k + 1] == p.1 && to[2 * k + 1] == p.0 && eid[2 * k + 1] == p.2
            },
        0 <= h < from.len(),
    ensures
        from[h] != to[h],
        exists|j: int| 0 <= j < from.len() && j != h && from[j] == to[h] && to[j] == from[h] && eid[j] == eid[h],
{
    lemma_proper_pieces(pieces);
    let k = h / 2;
    let p = proper_pieces(pieces)[k];
    if h % 2 == 0 {
        assert(h == 2 * k);
        assert(from[2 * k + 1] == to[h]);
    } else {
        assert(h == 2 * k + 1);
        assert(from[2 * k] == to[h]);
    }
}

/// The pieces kept have different ends.
proof fn lemma_proper_pieces(s: Seq<(usize, usize, u32)>)
    ensures
        forall|k: int| 0 <= k < proper_pieces(s).len() ==> #[trigger] proper_pieces(s)[k].0 != proper_pieces(s)[k].1,
    decreases s.len(),
{
    if s.len() > 0 {
        lemma_proper_pieces(s.drop_last());
        let prev = proper_pieces(s.drop_last());
        assert forall|k: int| 0 <= k < proper_pieces(s).len() implies #[trigger] proper_pieces(s)[k].0 != proper_pieces(s)[k].1 by {
            if k < prev.len() {
                assert(proper_pieces(s)[k] == prev[k]);
            }
        }
    }
}

} // verus!
