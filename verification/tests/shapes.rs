use contour::boolean::{BoolError, BoolOp};
use contour::graph::Graph;
use contour::model::FillRule;

type G = Graph<(f32, f32), ()>;

/// A square shape centered at (cx, cy) with half-width hw.
fn create_square(g: &mut G, cx: f32, cy: f32, hw: f32) -> u32 {
    let n0 = g.add_node((cx - hw, cy - hw));
    let n1 = g.add_node((cx + hw, cy - hw));
    let n2 = g.add_node((cx + hw, cy + hw));
    let n3 = g.add_node((cx - hw, cy + hw));

    let e0 = g.add_edge(n0, n1, ()).unwrap();
    let e1 = g.add_edge(n1, n2, ()).unwrap();
    let e2 = g.add_edge(n2, n3, ()).unwrap();
    let e3 = g.add_edge(n3, n0, ()).unwrap();

    g.create_shape(&[e0, e1, e2, e3], true).unwrap()
}

#[test]
fn test_shape_management() {
    let mut g = G::new();

    let n0 = g.add_node((0.0, 0.0));
    let n1 = g.add_node((100.0, 0.0));
    let n2 = g.add_node((100.0, 100.0));
    let n3 = g.add_node((0.0, 100.0));

    let e0 = g.add_edge(n0, n1, ()).unwrap();
    let e1 = g.add_edge(n1, n2, ()).unwrap();
    let e2 = g.add_edge(n2, n3, ()).unwrap();
    let e3 = g.add_edge(n3, n0, ()).unwrap();

    let shape_id = g.create_shape(&[e0, e1, e2, e3], true);
    assert!(shape_id.is_some());
    let sid = shape_id.unwrap();

    assert!(g.get_shape(sid).is_some());
    assert_eq!(g.shape_count(), 1);

    let edges = g.get_shape_edges(sid);
    assert!(edges.is_some());
    assert_eq!(edges.unwrap().len(), 4);

    assert!(g.delete_shape(sid));
    assert!(g.get_shape(sid).is_none());
    assert_eq!(g.shape_count(), 0);
}

#[test]
fn test_infer_shapes() {
    let mut g = G::new();

    let n0 = g.add_node((0.0, 0.0));
    let n1 = g.add_node((100.0, 0.0));
    let n2 = g.add_node((50.0, 86.6));

    g.add_edge(n0, n1, ());
    g.add_edge(n1, n2, ());
    g.add_edge(n2, n0, ());

    let shapes = g.infer_shapes();
    assert_eq!(shapes.len(), 1, "Should infer one triangle shape");
}

#[test]
fn test_invalid_shape_operations() {
    let mut g = G::new();

    let result = g.create_shape(&[999, 1000], true);
    assert!(result.is_none());

    let result = g.boolean_operands(999, 1000);
    assert!(result.is_err());
}

#[test]
fn test_union_disjoint_squares() {
    let mut g = G::new();
    let shape_a = create_square(&mut g, 0.0, 0.0, 50.0);
    let shape_b = create_square(&mut g, 200.0, 0.0, 50.0);
    assert!(g.boolean_operands(shape_a, shape_b).is_ok());

    // Neither square lies inside the other.
    let result = g.boolean_no_intersections(shape_a, shape_b, BoolOp::Union, false, false);
    assert!(result.is_ok());

    let res = result.unwrap();
    assert_eq!(res.shapes.len(), 2, "Disjoint union should produce two shapes");
}

#[test]
fn test_intersect_disjoint_squares() {
    let mut g = G::new();
    let shape_a = create_square(&mut g, 0.0, 0.0, 50.0);
    let shape_b = create_square(&mut g, 200.0, 0.0, 50.0);
    assert!(g.boolean_operands(shape_a, shape_b).is_ok());

    let result = g.boolean_no_intersections(shape_a, shape_b, BoolOp::Intersect, false, false);
    assert!(result.is_ok());

    let res = result.unwrap();
    assert!(res.shapes.is_empty(), "Disjoint intersection should be empty");
}

#[test]
fn test_contained_square() {
    let mut g = G::new();
    let shape_a = create_square(&mut g, 0.0, 0.0, 100.0);
    let shape_b = create_square(&mut g, 0.0, 0.0, 30.0);

    // B lies inside A, A does not lie inside B.
    let union = g.boolean_no_intersections(shape_a, shape_b, BoolOp::Union, false, true).unwrap();
    assert_eq!(union.shapes.len(), 1, "Union with contained shape should produce one shape");

    let mut g2 = G::new();
    let a2 = create_square(&mut g2, 0.0, 0.0, 100.0);
    let b2 = create_square(&mut g2, 0.0, 0.0, 30.0);
    let inter = g2.boolean_no_intersections(a2, b2, BoolOp::Intersect, false, true).unwrap();
    assert_eq!(inter.shapes.len(), 1, "Intersection should produce one shape");
}

#[test]
fn shapes_keep_their_edges_and_fill_rule() {
    let mut g = G::new();
    let s = create_square(&mut g, 0.0, 0.0, 1.0);
    assert_eq!(g.get_shape_edges(s), Some(&[0u32, 1, 2, 3][..]));
    assert_eq!(g.get_shape(s).unwrap().fill_rule, FillRule::NonZero);
    assert!(g.set_shape_fill_rule(s, FillRule::EvenOdd));
    assert_eq!(g.get_shape(s).unwrap().fill_rule, FillRule::EvenOdd);
    assert!(!g.set_shape_fill_rule(9, FillRule::EvenOdd));
    let t = g.create_shape_with_fill_rule(&[1, 2], false, FillRule::EvenOdd).unwrap();
    assert_eq!(t, 1);
    assert!(!g.get_shape(t).unwrap().closed);
    assert_eq!(g.get_shape_ids(), vec![0, 1]);
    assert!(g.delete_shape(s));
    assert!(!g.delete_shape(s));
    assert_eq!(g.get_shape_ids(), vec![1]);
}

#[test]
fn operand_errors_come_in_order() {
    let mut g = G::new();
    let a = create_square(&mut g, 0.0, 0.0, 1.0);
    let empty = g.create_shape(&[], true).unwrap();
    assert!(matches!(g.boolean_operands(9, a), Err(BoolError::ShapeNotFound(9))));
    assert!(matches!(g.boolean_operands(a, 9), Err(BoolError::ShapeNotFound(9))));
    assert!(matches!(g.boolean_operands(empty, a), Err(BoolError::EmptyShape(e)) if e == empty));
    assert!(matches!(g.boolean_operands(a, empty), Err(BoolError::EmptyShape(e)) if e == empty));
    g.remove_edge(2);
    assert!(matches!(g.boolean_operands(a, a), Err(BoolError::EdgeNotFound(2))));
}

#[test]
fn disjoint_difference_and_xor_copy_the_operands() {
    let mut g = G::new();
    let a = create_square(&mut g, 0.0, 0.0, 10.0);
    let b = create_square(&mut g, 100.0, 0.0, 10.0);
    let edges_before = g.edge_count();
    let diff = g.boolean_no_intersections(a, b, BoolOp::Difference, false, false).unwrap();
    assert_eq!(diff.shapes, vec![2]);
    assert_eq!(g.get_shape_edges(2), Some(&[8u32, 9, 10, 11][..]));
    assert_eq!(g.edge_count(), edges_before + 4);
    let copy = g.get_edge(8).unwrap();
    assert_eq!((copy.a, copy.b), (0, 1));
    // The copies join no group.
    assert_eq!(g.get_edge_group(8), None);
    let xor = g.boolean_no_intersections(a, b, BoolOp::Xor, true, false).unwrap();
    assert_eq!(xor.shapes, vec![3, 4]);
    assert_eq!(g.get_shape_edges(4), Some(&[16u32, 17, 18, 19][..]));
    let inside = g.boolean_no_intersections(a, b, BoolOp::Difference, true, false).unwrap();
    assert!(inside.shapes.is_empty());
}

#[test]
fn keeps_follows_the_set_operations() {
    assert!(BoolOp::Union.keeps(true, false));
    assert!(!BoolOp::Intersect.keeps(true, false));
    assert!(BoolOp::Difference.keeps(true, false));
    assert!(!BoolOp::Difference.keeps(false, true));
    assert!(BoolOp::Xor.keeps(false, true));
    assert!(!BoolOp::Xor.keeps(true, true));
    for op in [BoolOp::Union, BoolOp::Intersect, BoolOp::Difference, BoolOp::Xor] {
        assert!(!op.keeps(false, false));
    }
}

#[test]
fn inferred_loops_skip_edges_already_in_shapes() {
    let mut g = G::new();
    let s = create_square(&mut g, 0.0, 0.0, 1.0);
    assert_eq!(g.infer_shapes(), Vec::<u32>::new());
    g.delete_shape(s);
    let created = g.infer_shapes();
    assert_eq!(created, vec![1]);
    let shape = g.get_shape(1).unwrap();
    assert!(shape.closed);
    assert_eq!(shape.edges, vec![0, 1, 2, 3]);
    // A second pass finds nothing new.
    assert!(g.infer_shapes().is_empty());
}

#[test]
fn open_paths_give_no_shapes() {
    let mut g = G::new();
    let a = g.add_node((0.0, 0.0));
    let b = g.add_node((1.0, 0.0));
    let c = g.add_node((2.0, 0.0));
    g.add_edge(a, b, ());
    g.add_edge(b, c, ());
    assert!(g.infer_shapes().is_empty());
    assert_eq!(g.shape_count(), 0);
}

#[test]
fn two_triangles_sharing_an_edge() {
    let mut g = G::new();
    let n0 = g.add_node((0.0, 0.0));
    let n1 = g.add_node((1.0, 0.0));
    let n2 = g.add_node((0.0, 1.0));
    let n3 = g.add_node((1.0, 1.0));
    g.add_edge(n0, n1, ()); // 0
    g.add_edge(n1, n2, ()); // 1
    g.add_edge(n2, n0, ()); // 2
    g.add_edge(n1, n3, ()); // 3
    g.add_edge(n3, n2, ()); // 4
    let created = g.infer_shapes();
    assert_eq!(created, vec![0, 1]);
    assert_eq!(g.get_shape(0).unwrap().edges, vec![0, 1, 2]);
    // The search from edge 3 may pass through edge 1 again.
    assert_eq!(g.get_shape(1).unwrap().edges, vec![3, 4, 1]);
}
