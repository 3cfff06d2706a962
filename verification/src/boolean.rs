//! Boolean operations on shapes: which operands are valid, which regions
//! an operation keeps, and the result when the two shapes do not cross.
//!
//! Whether a point lies inside a shape is a geometric test made by the
//! caller; the decisions that follow from its answers are made here.

use vstd::prelude::*;
use crate::graph::{Graph, Edge};
use crate::model::{FillRule, Shape};

verus! {

/// Boolean operation type.
#[derive(Clone, Copy, Debug, PartialEq, Eq, Structural)]
pub enum BoolOp {
    /// A ∪ B: areas in A or B or both.
    Union,
    /// A ∩ B: areas in both A and B.
    Intersect,
    /// A - B: areas in A but not in B.
    Difference,
    /// A ⊕ B: areas in A or B but not both.
    Xor,
}

/// Error type for boolean operations.
#[derive(Clone, Debug)]
pub enum BoolError {
    /// Shape not found.
    ShapeNotFound(u32),
    /// Shape has no edges.
    EmptyShape(u32),
    /// Edge in shape not found.
    EdgeNotFound(u32),
    /// Node not found.
    NodeNotFound(u32),
    /// Operation failed (generic).
    OperationFailed(String),
}

/// Result of a boolean operation.
#[derive(Clone, Debug)]
pub struct BooleanResult {
    /// IDs of newly created shapes.
    pub shapes: Vec<u32>,
    /// IDs of newly created nodes (intersection points).
    pub nodes: Vec<u32>,
    /// IDs of newly created edges.
    pub edges: Vec<u32>,
}

/// Whether operation `op` keeps a region that lies in A (`in_a`) and in B (`in_b`).
pub open spec fn keeps_spec(op: BoolOp, in_a: bool, in_b: bool) -> bool {
    match op {
        BoolOp::Union => in_a || in_b,
        BoolOp::Intersect => in_a && in_b,
        BoolOp::Difference => in_a && !in_b,
        BoolOp::Xor => in_a != in_b,
    }
}

impl BoolOp {
    /// Whether this operation keeps a region that lies in A (`in_a`) and in
    /// B (`in_b`).
    pub fn keeps(self, in_a: bool, in_b: bool) -> (r: bool)
        ensures
            r == keeps_spec(self, in_a, in_b),
    {
        match self {
            BoolOp::Union => in_a || in_b,
            BoolOp::Intersect => in_a && in_b,
            BoolOp::Difference => in_a && !in_b,
            BoolOp::Xor => in_a != in_b,
        }
    }
}

/// The kept regions relate as sets do: the union is the intersection plus
/// the symmetric difference, those two never overlap, the difference lies
/// in the union and outside the intersection, and a region in neither
/// shape is never kept.
pub proof fn lemma_keeps_laws(in_a: bool, in_b: bool)
    ensures
        keeps_spec(BoolOp::Union, in_a, in_b) == (keeps_spec(BoolOp::Intersect, in_a, in_b) || keeps_spec(BoolOp::Xor, in_a, in_b)),
        !(keeps_spec(BoolOp::Intersect, in_a, in_b) && keeps_spec(BoolOp::Xor, in_a, in_b)),
        keeps_spec(BoolOp::Difference, in_a, in_b) ==> keeps_spec(BoolOp::Union, in_a, in_b)
            && !keeps_spec(BoolOp::Intersect, in_a, in_b),
        keeps_spec(BoolOp::Xor, in_a, in_b) == (keeps_spec(BoolOp::Difference, in_a, in_b) || keeps_spec(BoolOp::Difference, in_b, in_a)),
        keeps_spec(BoolOp::Union, in_a, in_b) == keeps_spec(BoolOp::Union, in_b, in_a),
        keeps_spec(BoolOp::Intersect, in_a, in_b) == keeps_spec(BoolOp::Intersect, in_b, in_a),
        keeps_spec(BoolOp::Xor, in_a, in_b) == keeps_spec(BoolOp::Xor, in_b, in_a),
        forall|op: BoolOp| !keeps_spec(op, false, false),
{
}

/// Which operands a boolean operation on two shapes that do not cross
/// copies, in order (`true` for A, `false` for B), given whether A lies in
/// B and whether B lies in A.
pub open spec fn disjoint_plan(op: BoolOp, a_in_b: bool, b_in_a: bool) -> Seq<bool> {
    match op {
        BoolOp::Union => if a_in_b {
            seq![false]
        } else if b_in_a {
            seq![true]
        } else {
            seq![true, false]
        },
        BoolOp::Intersect => if a_in_b {
            seq![true]
        } else if b_in_a {
            seq![false]
        } else {
            seq![]
        },
        BoolOp::Difference => if a_in_b {
            seq![]
        } else {
            seq![true]
        },
        BoolOp::Xor => seq![true, false],
    }
}


/// A point that lies in A (`in_a`) and in B (`in_b`) can exist when the
/// outlines of A and B do not cross, A lies inside B exactly when
/// `a_in_b`, and B inside A exactly when `b_in_a`: a point in one shape
/// only is impossible inside the other, and without either containment the
/// shapes do not overlap.
pub open spec fn point_possible(a_in_b: bool, b_in_a: bool, in_a: bool, in_b: bool) -> bool {
    &&& a_in_b ==> !(in_a && !in_b)
    &&& b_in_a ==> !(in_b && !in_a)
    &&& (!a_in_b && !b_in_a) ==> !(in_a && in_b)
}

/// A point that lies in A (`in_a`) and in B (`in_b`) is covered by the
/// copies of the operands that `plan` names (`true` for A, `false` for B).
pub open spec fn covered(plan: Seq<bool>, in_a: bool, in_b: bool) -> bool {
    exists|i: int| 0 <= i < plan.len() && (if #[trigger] plan[i] { in_a } else { in_b })
}

/// The shapes copied when the outlines do not cross cover exactly the
/// points that the operation keeps, for every point that can exist: for a
/// union, every point of either operand and no other; for an intersection,
/// the points of both and no other. The one exception is a difference with
/// B inside A and an exclusive or with one shape inside the other, where
/// the result keeps both outlines whole instead of cutting a hole: there
/// the copies still cover every kept point. In every case the copies lie
/// within the two operands, a difference within A; each operand is copied
/// at most once, and A before B.
pub proof fn lemma_disjoint_plan_covers_kept(op: BoolOp, a_in_b: bool, b_in_a: bool, in_a: bool, in_b: bool)
    requires
        point_possible(a_in_b, b_in_a, in_a, in_b),
    ensures
        keeps_spec(op, in_a, in_b) ==> covered(disjoint_plan(op, a_in_b, b_in_a), in_a, in_b),
        !(op == BoolOp::Difference && b_in_a && !a_in_b) && !(op == BoolOp::Xor && (a_in_b || b_in_a)) ==> (covered(
            disjoint_plan(op, a_in_b, b_in_a),
            in_a,
            in_b,
        ) == keeps_spec(op, in_a, in_b)),
        covered(disjoint_plan(op, a_in_b, b_in_a), in_a, in_b) ==> in_a || in_b,
        op == BoolOp::Difference && covered(disjoint_plan(op, a_in_b, b_in_a), in_a, in_b) ==> in_a,
        disjoint_plan(op, a_in_b, b_in_a).len() <= 2,
        disjoint_plan(op, a_in_b, b_in_a).no_duplicates(),
        disjoint_plan(op, a_in_b, b_in_a).len() == 2 ==> disjoint_plan(op, a_in_b, b_in_a)[0] && !disjoint_plan(
            op,
            a_in_b,
            b_in_a,
        )[1],
{
    lemma_covered_small(disjoint_plan(op, a_in_b, b_in_a), in_a, in_b);
}

/// Which points the copies of at most two operands cover.
proof fn lemma_covered_small(plan: Seq<bool>, in_a: bool, in_b: bool)
    requires
        plan.len() <= 2,
    ensures
        covered(plan, in_a, in_b) == ((plan.len() > 0 && (if plan[0] { in_a } else { in_b })) || (plan.len() > 1 && (
        if plan[1] {
            in_a
        } else {
            in_b
        }))),
{
    if covered(plan, in_a, in_b) {
        let i = choose|i: int| 0 <= i < plan.len() && (if #[trigger] plan[i] { in_a } else { in_b });
        assert(i == 0 || i == 1);
    }
    if plan.len() > 0 && (if plan[0] { in_a } else { in_b }) {
        assert(covered(plan, in_a, in_b));
    }
    if plan.len() > 1 && (if plan[1] { in_a } else { in_b }) {
        assert(covered(plan, in_a, in_b));
    }
}

impl<N, E> Graph<N, E> {
    /// The first edge of `ids`, in order, that does not exist.
    pub open spec fn first_missing_edge(&self, ids: Seq<u32>) -> Option<u32>
        decreases ids.len(),
    {
        if ids.len() == 0 {
            None
        } else if !self.edge_live(ids[0] as int) {
            Some(ids[0])
        } else {
            self.first_missing_edge(ids.drop_first())
        }
    }

    /// The outcome of checking the operands of a boolean operation: both
    /// shapes exist, both have edges, and all their edges exist, checked
    /// in this order.
    pub open spec fn operand_check(&self, shape_a: u32, shape_b: u32) -> Result<(), BoolError> {
        if !self.shape_live(shape_a as int) {
            Err(BoolError::ShapeNotFound(shape_a))
        } else if !self.shape_live(shape_b as int) {
            Err(BoolError::ShapeNotFound(shape_b))
        } else if (self.shapes@[shape_a as int]->0).edges@.len() == 0 {
            Err(BoolError::EmptyShape(shape_a))
        } else if (self.shapes@[shape_b as int]->0).edges@.len() == 0 {
            Err(BoolError::EmptyShape(shape_b))
        } else {
            match self.first_missing_edge((self.shapes@[shape_a as int]->0).edges@) {
                Some(e) => Err(BoolError::EdgeNotFound(e)),
                None => match self.first_missing_edge((self.shapes@[shape_b as int]->0).edges@) {
                    Some(e) => Err(BoolError::EdgeNotFound(e)),
                    None => Ok(()),
                },
            }
        }
    }

    /// The first edge of `ids` that does not exist.
    fn find_missing_edge(&self, ids: &Vec<u32>) -> (r: Option<u32>)
        ensures
            r == self.first_missing_edge(ids@),
            r is None ==> forall|k: int| 0 <= k < ids@.len() ==> self.edge_live(#[trigger] ids@[k] as int),
    {
        let mut i: usize = 0;
        assert(ids@.skip(0) =~= ids@);
        while i < ids.len()
            invariant
                i <= ids@.len(),
                self.first_missing_edge(ids@) == self.first_missing_edge(ids@.skip(i as int)),
                forall|k: int| 0 <= k < i ==> self.edge_live(#[trigger] ids@[k] as int),
            decreases ids@.len() - i,
        {
            let eid = ids[i];
            assert(ids@.skip(i as int)[0] == eid);
            if self.get_edge(eid).is_none() {
                return Some(eid);
            }
            assert(ids@.skip(i as int).drop_first() =~= ids@.skip(i + 1));
            i = i + 1;
        }
        None
    }

    /// Check the operands of a boolean operation on shapes `shape_a` and
    /// `shape_b`.
    pub fn boolean_operands(&self, shape_a: u32, shape_b: u32) -> (r: Result<(), BoolError>)
        ensures
            r == self.operand_check(shape_a, shape_b),
    {
        let a = match self.get_shape(shape_a) {
            Some(s) => s,
            None => return Err(BoolError::ShapeNotFound(shape_a)),
        };
        let b = match self.get_shape(shape_b) {
            Some(s) => s,
            None => return Err(BoolError::ShapeNotFound(shape_b)),
        };
        if a.edges.len() == 0 {
            return Err(BoolError::EmptyShape(shape_a));
        }
        if b.edges.len() == 0 {
            return Err(BoolError::EmptyShape(shape_b));
        }
        match self.find_missing_edge(&a.edges) {
            Some(e) => return Err(BoolError::EdgeNotFound(e)),
            None => {},
        }
        match self.find_missing_edge(&b.edges) {
            Some(e) => Err(BoolError::EdgeNotFound(e)),
            None => Ok(()),
        }
    }
}


/// Slot `slot` holds a copy of edge `src`: the same ends and stroke, and a
/// geometry cloned from it.
pub open spec fn copy_of<E: Clone>(slot: Option<Edge<E>>, src: Edge<E>) -> bool {
    &&& slot is Some
    &&& (slot->0).a == src.a
    &&& (slot->0).b == src.b
    &&& (slot->0).stroke == src.stroke
    &&& cloned::<E>(src.geometry, (slot->0).geometry)
}

/// From position `off`, `edges` holds copies of the edges of `src` (taken
/// from `before`), and slot `sid` of `shapes` holds the closed-or-open
/// shape, with the non-zero rule, made of those copies in order.
pub open spec fn shape_copied<E: Clone>(
    before: Seq<Option<Edge<E>>>,
    edges: Seq<Option<Edge<E>>>,
    shapes: Seq<Option<Shape>>,
    src: Shape,
    off: int,
    sid: int,
) -> bool {
    &&& 0 <= off
    &&& off + src.edges@.len() <= edges.len()
    &&& 0 <= sid < shapes.len()
    &&& forall|i: int| 0 <= i < src.edges@.len() ==> copy_of(#[trigger] edges[off + i], before[src.edges@[i] as int]->0)
    &&& shapes[sid] is Some
    &&& (shapes[sid]->0).id == sid
    &&& (shapes[sid]->0).edges@ == Seq::new(src.edges@.len(), |i: int| (off + i) as u32)
    &&& (shapes[sid]->0).closed == src.closed
    &&& (shapes[sid]->0).fill_rule == FillRule::NonZero
}

/// A copy stays in place when edges and shapes are appended after it.
proof fn lemma_shape_copied_extend<E: Clone>(
    before: Seq<Option<Edge<E>>>,
    edges: Seq<Option<Edge<E>>>,
    shapes: Seq<Option<Shape>>,
    edges2: Seq<Option<Edge<E>>>,
    shapes2: Seq<Option<Shape>>,
    src: Shape,
    off: int,
    sid: int,
)
    requires
        shape_copied(before, edges, shapes, src, off, sid),
        edges2.len() >= edges.len(),
        edges2.subrange(0, edges.len() as int) == edges,
        shapes2.len() >= shapes.len(),
        shapes2.subrange(0, shapes.len() as int) == shapes,
    ensures
        shape_copied(before, edges2, shapes2, src, off, sid),
{
    assert forall|i: int| 0 <= i < src.edges@.len() implies copy_of(#[trigger] edges2[off + i], before[src.edges@[i] as int]->0) by {
        assert(edges2.subrange(0, edges.len() as int)[off + i] == edges2[off + i]);
    }
    assert(shapes2.subrange(0, shapes.len() as int)[sid] == shapes2[sid]);
}

/// A copy of a shape's data.
fn copy_shape(s: &Shape) -> (r: Shape)
    ensures
        r.id == s.id,
        r.edges@ == s.edges@,
        r.closed == s.closed,
        r.fill_rule == s.fill_rule,
{
    let edges = s.edges.clone();
    assert(edges@ =~= s.edges@);
    Shape { id: s.id, edges, closed: s.closed, fill_rule: s.fill_rule }
}

impl<N, E: Clone> Graph<N, E> {
    /// Copy the edges of `shape` (same ends, stroke and geometry, in no
    /// group) and make a new shape of the copies with the same closedness
    /// and the non-zero rule; returns the new shape's id.
    fn clone_shape(&mut self, shape: &Shape) -> (r: Result<u32, BoolError>)
        requires
            old(self).wf(),
            forall|k: int| 0 <= k < shape.edges@.len() ==> old(self).edge_live(#[trigger] shape.edges@[k] as int),
            old(self).edges@.len() + shape.edges@.len() <= u32::MAX,
            old(self).shapes@.len() < u32::MAX,
        ensures
            final(self).wf(),
            r == Ok::<u32, BoolError>(old(self).shapes@.len() as u32),
            final(self).edges@.len() == old(self).edges@.len() + shape.edges@.len(),
            final(self).edges@.subrange(0, old(self).edges@.len() as int) == old(self).edges@,
            final(self).shapes@.len() == old(self).shapes@.len() + 1,
            final(self).shapes@.subrange(0, old(self).shapes@.len() as int) == old(self).shapes@,
            shape_copied(old(self).edges@, final(self).edges@, final(self).shapes@, *shape,
                old(self).edges@.len() as int, old(self).shapes@.len() as int),
            final(self).nodes@ == old(self).nodes@,
            final(self).fills@ == old(self).fills@,
            final(self).layer_system == old(self).layer_system,
            final(self).geom_ver == old(self).geom_ver,
    {
        let ghost e0 = old(self).edges@;
        let ghost n0 = e0.len();
        let mut new_edges: Vec<u32> = Vec::new();
        let mut k: usize = 0;
        while k < shape.edges.len()
            invariant
                self.wf(),
                k <= shape.edges@.len(),
                forall|q: int| 0 <= q < shape.edges@.len() ==> #[trigger] e0[shape.edges@[q] as int] is Some
                    && shape.edges@[q] < n0,
                n0 == e0.len(),
                e0 == old(self).edges@,
                n0 + shape.edges@.len() <= u32::MAX,
                self.edges@.len() == n0 + k,
                self.edges@.subrange(0, n0 as int) == e0,
                forall|i: int| 0 <= i < k ==> copy_of(#[trigger] self.edges@[n0 + i], e0[shape.edges@[i] as int]->0),
                new_edges@ == Seq::new(k as nat, |i: int| (n0 + i) as u32),
                self.nodes@ == old(self).nodes@,
                self.shapes@ == old(self).shapes@,
                self.fills@ == old(self).fills@,
                self.layer_system == old(self).layer_system,
                self.geom_ver == old(self).geom_ver,
            decreases shape.edges@.len() - k,
        {
            let eid = shape.edges[k];
            proof {
                assert(e0[eid as int] is Some && eid < n0);
                assert(self.edges@.subrange(0, n0 as int)[eid as int] == self.edges@[eid as int]);
            }
            let copy = match &self.edges[eid as usize] {
                Some(e) => Edge { a: e.a, b: e.b, stroke: e.stroke, geometry: e.geometry.clone() },
                None => return Err(BoolError::EdgeNotFound(eid)),
            };
            let new_eid = self.edges.len() as u32;
            let ghost before = self.edges@;
            let ghost prev = *self;
            proof {
                assert(self.edge_live(eid as int));
            }
            self.edges.push(Some(copy));
            new_edges.push(new_eid);
            proof {
                assert(self.edges@.subrange(0, n0 as int) =~= before.subrange(0, n0 as int));
                assert forall|i: int| 0 <= i < k + 1 implies copy_of(#[trigger] self.edges@[n0 + i], e0[shape.edges@[i] as int]->0) by {
                    if i < k {
                        assert(self.edges@[n0 + i] == before[n0 + i]);
                    }
                }
                assert(new_edges@ =~= Seq::new((k + 1) as nat, |i: int| (n0 + i) as u32));
                assert forall|i: int| #[trigger] self.edge_live(i) implies {
                    let e = self.edges@[i]->0;
                    &&& e.a != e.b
                    &&& self.node_live(e.a as int)
                    &&& self.node_live(e.b as int)
                } by {
                    if i < before.len() {
                        assert(prev.edge_live(i));
                    } else {
                        assert(prev.edge_live(eid as int));
                    }
                }
                self.lemma_wf_after_edge_change(&prev);
            }
            k = k + 1;
        }
        proof {
            assert forall|q: int| 0 <= q < new_edges@.len() implies self.edge_live(#[trigger] new_edges@[q] as int) by {
                assert(new_edges@[q] == (n0 + q) as u32);
            }
        }
        match self.create_shape(new_edges.as_slice(), shape.closed) {
            Some(id) => {
                proof {
                    assert(self.shapes@.subrange(0, old(self).shapes@.len() as int) =~= old(self).shapes@);
                }
                Ok(id)
            },
            None => Err(BoolError::OperationFailed(String::from_str("Failed to create shape"))),
        }
    }
}


/// How many edges copying the operands of `plan` in order adds, when A has
/// `la` edges and B has `lb`.
pub open spec fn copied_len(plan: Seq<bool>, la: nat, lb: nat) -> nat
    decreases plan.len(),
{
    if plan.len() == 0 {
        0
    } else {
        copied_len(plan.drop_last(), la, lb) + if plan.last() {
            la
        } else {
            lb
        }
    }
}

/// The plan of `disjoint_plan` as a vector.
fn disjoint_plan_vec(op: BoolOp, a_in_b: bool, b_in_a: bool) -> (plan: Vec<bool>)
    ensures
        plan@ == disjoint_plan(op, a_in_b, b_in_a),
{
    let mut plan: Vec<bool> = Vec::new();
    match op {
        BoolOp::Union => {
            if a_in_b {
                plan.push(false);
            } else if b_in_a {
                plan.push(true);
            } else {
                plan.push(true);
                plan.push(false);
            }
        },
        BoolOp::Intersect => {
            if a_in_b {
                plan.push(true);
            } else if b_in_a {
                plan.push(false);
            }
        },
        BoolOp::Difference => {
            if !a_in_b {
                plan.push(true);
            }
        },
        BoolOp::Xor => {
            plan.push(true);
            plan.push(false);
        },
    }
    assert(plan@ =~= disjoint_plan(op, a_in_b, b_in_a));
    plan
}

impl<N, E: Clone> Graph<N, E> {
    /// The boolean operation `op` on shapes `shape_a` and `shape_b` when
    /// their outlines do not cross, given whether A lies inside B and B
    /// inside A: each operand that `disjoint_plan` names is copied, in
    /// order, as a new shape made of new edges. The operands are left as
    /// they are.
    pub fn boolean_no_intersections(&mut self, shape_a: u32, shape_b: u32, op: BoolOp, a_in_b: bool, b_in_a: bool) -> (r: Result<BooleanResult, BoolError>)
        requires
            old(self).wf(),
            old(self).operand_check(shape_a, shape_b) is Ok,
            old(self).edges@.len() + (old(self).shapes@[shape_a as int]->0).edges@.len()
                + (old(self).shapes@[shape_b as int]->0).edges@.len() <= u32::MAX,
            old(self).shapes@.len() + 2 < u32::MAX,
        ensures
            final(self).wf(),
            r is Ok,
            ({
                let plan = disjoint_plan(op, a_in_b, b_in_a);
                let sa = old(self).shapes@[shape_a as int]->0;
                let sb = old(self).shapes@[shape_b as int]->0;
                let e0 = old(self).edges@.len() as int;
                let s0 = old(self).shapes@.len() as int;
                &&& (r->Ok_0).shapes@ == Seq::new(plan.len(), |k: int| (s0 + k) as u32)
                &&& (r->Ok_0).nodes@.len() == 0
                &&& (r->Ok_0).edges@.len() == 0
                &&& final(self).edges@.len() == e0 + copied_len(plan, sa.edges@.len(), sb.edges@.len())
                &&& final(self).edges@.subrange(0, e0) == old(self).edges@
                &&& final(self).shapes@.len() == s0 + plan.len()
                &&& final(self).shapes@.subrange(0, s0) == old(self).shapes@
                &&& forall|k: int| 0 <= k < plan.len() ==> shape_copied(
                    old(self).edges@,
                    final(self).edges@,
                    final(self).shapes@,
                    if #[trigger] plan[k] { sa } else { sb },
                    e0 + copied_len(plan.take(k), sa.edges@.len(), sb.edges@.len()),
                    s0 + k,
                )
            }),
            final(self).nodes@ == old(self).nodes@,
            final(self).fills@ == old(self).fills@,
            final(self).layer_system == old(self).layer_system,
            final(self).geom_ver == old(self).geom_ver,
    {
        let sa = copy_shape(self.get_shape(shape_a).unwrap());
        let sb = copy_shape(self.get_shape(shape_b).unwrap());
        let ghost plan_s = disjoint_plan(op, a_in_b, b_in_a);
        let ghost e0 = old(self).edges@.len() as int;
        let ghost s0 = old(self).shapes@.len() as int;
        let ghost la = sa.edges@.len();
        let ghost lb = sb.edges@.len();
        let plan = disjoint_plan_vec(op, a_in_b, b_in_a);
        let mut result = BooleanResult { shapes: Vec::new(), nodes: Vec::new(), edges: Vec::new() };
        proof {
            assert forall|k: int| 0 <= k < sa.edges@.len() implies old(self).edge_live(#[trigger] sa.edges@[k] as int) by {
                assert(old(self).first_missing_edge(sa.edges@) is None);
                lemma_no_missing_edge(old(self), sa.edges@, k);
            }
            assert forall|k: int| 0 <= k < sb.edges@.len() implies old(self).edge_live(#[trigger] sb.edges@[k] as int) by {
                lemma_no_missing_edge(old(self), sb.edges@, k);
            }
            assert(plan_s.len() <= 2);
            assert(copied_len(plan_s.take(0), la, lb) == 0) by {
                assert(plan_s.take(0) =~= Seq::<bool>::empty());
            }
        }
        let mut k: usize = 0;
        while k < plan.len()
            invariant
                self.wf(),
                plan@ == plan_s,
                plan_s.len() <= 2,
                plan_s == disjoint_plan(op, a_in_b, b_in_a),
                0 <= k <= plan_s.len(),
                e0 == old(self).edges@.len(),
                s0 == old(self).shapes@.len(),
                la == sa.edges@.len(),
                lb == sb.edges@.len(),
                sa.edges@ == (old(self).shapes@[shape_a as int]->0).edges@,
                sb.edges@ == (old(self).shapes@[shape_b as int]->0).edges@,
                sa.closed == (old(self).shapes@[shape_a as int]->0).closed,
                sb.closed == (old(self).shapes@[shape_b as int]->0).closed,
                forall|q: int| 0 <= q < sa.edges@.len() ==> old(self).edge_live(#[trigger] sa.edges@[q] as int),
                forall|q: int| 0 <= q < sb.edges@.len() ==> old(self).edge_live(#[trigger] sb.edges@[q] as int),
                e0 + la + lb <= u32::MAX,
                s0 + 2 < u32::MAX,
                self.edges@.len() == e0 + copied_len(plan_s.take(k as int), la, lb),
                copied_len(plan_s.take(k as int), la, lb) <= (if k == 0 { 0 } else if k == 1 { if plan_s[0] { la } else { lb } } else { la + lb }),
                self.edges@.subrange(0, e0) == old(self).edges@,
                self.shapes@.len() == s0 + k,
                self.shapes@.subrange(0, s0) == old(self).shapes@,
                result.shapes@ == Seq::new(k as nat, |q: int| (s0 + q) as u32),
                result.nodes@.len() == 0,
                result.edges@.len() == 0,
                forall|q: int| 0 <= q < k ==> shape_copied(
                    old(self).edges@,
                    self.edges@,
                    self.shapes@,
                    if #[trigger] plan_s[q] { sa } else { sb },
                    e0 + copied_len(plan_s.take(q), la, lb),
                    s0 + q,
                ),
                self.nodes@ == old(self).nodes@,
                self.fills@ == old(self).fills@,
                self.layer_system == old(self).layer_system,
                self.geom_ver == old(self).geom_ver,
            decreases plan_s.len() - k,
        {
            let ghost g1 = *self;
            let operand = if plan[k] { &sa } else { &sb };
            proof {
                assert(plan_s.take(k + 1).drop_last() =~= plan_s.take(k as int));
                assert(plan_s.take(k + 1).last() == plan_s[k as int]);
                assert forall|q: int| 0 <= q < operand.edges@.len() implies self.edge_live(#[trigger] operand.edges@[q] as int) by {
                    assert(old(self).edge_live(operand.edges@[q] as int));
                    assert(self.edges@.subrange(0, e0)[operand.edges@[q] as int] == self.edges@[operand.edges@[q] as int]);
                }
                if k == 1 {
                    assert(plan_s.len() == 2);
                    assert(plan_s[0] != plan_s[1]);
                }
            }
            let id = match self.clone_shape(operand) {
                Ok(id) => id,
                Err(e) => return Err(e),
            };
            result.shapes.push(id);
            proof {
                assert(result.shapes@ =~= Seq::new((k + 1) as nat, |q: int| (s0 + q) as u32));
                assert(self.edges@.subrange(0, e0) =~= g1.edges@.subrange(0, e0)) by {
                    assert forall|i: int| 0 <= i < e0 implies self.edges@[i] == g1.edges@[i] by {
                        assert(self.edges@.subrange(0, g1.edges@.len() as int)[i] == self.edges@[i]);
                    }
                }
                assert(self.shapes@.subrange(0, s0) =~= g1.shapes@.subrange(0, s0)) by {
                    assert forall|i: int| 0 <= i < s0 implies self.shapes@[i] == g1.shapes@[i] by {
                        assert(self.shapes@.subrange(0, g1.shapes@.len() as int)[i] == self.shapes@[i]);
                    }
                }
                assert forall|q: int| 0 <= q < k + 1 implies shape_copied(
                    old(self).edges@,
                    self.edges@,
                    self.shapes@,
                    if #[trigger] plan_s[q] { sa } else { sb },
                    e0 + copied_len(plan_s.take(q), la, lb),
                    s0 + q,
                ) by {
                    if q < k {
                        lemma_shape_copied_extend(old(self).edges@, g1.edges@, g1.shapes@, self.edges@, self.shapes@,
                            if plan_s[q] { sa } else { sb }, e0 + copied_len(plan_s.take(q), la, lb), s0 + q);
                    } else {
                        assert forall|i: int| 0 <= i < operand.edges@.len() implies copy_of(#[trigger] self.edges@[e0 + copied_len(plan_s.take(q), la, lb) + i], old(self).edges@[operand.edges@[i] as int]->0) by {
                            assert(g1.edges@.subrange(0, e0)[operand.edges@[i] as int] == g1.edges@[operand.edges@[i] as int]);
                        }
                    }
                }
            }
            k = k + 1;
        }
        proof {
            assert(plan_s.take(k as int) =~= plan_s);
        }
        Ok(result)
    }
}

/// An id list without a missing edge names existing edges only.
proof fn lemma_no_missing_edge<N, E>(g: &Graph<N, E>, ids: Seq<u32>, k: int)
    requires
        g.first_missing_edge(ids) is None,
        0 <= k < ids.len(),
    ensures
        g.edge_live(ids[k] as int),
    decreases ids.len(),
{
    if k > 0 {
        lemma_no_missing_edge(g, ids.drop_first(), k - 1);
    }
}

} // verus!
