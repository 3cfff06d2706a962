use contour::graph::Graph;
use contour::model::{Color, FillState};

type G = Graph<(f32, f32), ()>;

fn triangle(g: &mut G) -> (u32, u32, u32) {
    let n0 = g.add_node((0.0, 0.0));
    let n1 = g.add_node((100.0, 0.0));
    let n2 = g.add_node((50.0, 86.6));
    let e0 = g.add_edge(n0, n1, ()).unwrap();
    let e1 = g.add_edge(n1, n2, ()).unwrap();
    let e2 = g.add_edge(n2, n0, ()).unwrap();
    (e0, e1, e2)
}

#[test]
fn new_graph_is_empty_at_version_one() {
    let g = G::new();
    assert_eq!(g.node_count(), 0);
    assert_eq!(g.edge_count(), 0);
    assert_eq!(g.shape_count(), 0);
    assert_eq!(g.geom_version(), 1);
    assert_eq!(g.layer_system.layers.len(), 1);
}

#[test]
fn node_ids_are_slot_indices_and_not_reused() {
    let mut g = G::new();
    let a = g.add_node((1.0, 2.0));
    let b = g.add_node((3.0, 4.0));
    assert_eq!((a, b), (0, 1));
    assert_eq!(g.get_node(a), Some(&(1.0, 2.0)));
    assert!(g.remove_node(a));
    assert_eq!(g.get_node(a), None);
    assert!(!g.remove_node(a));
    let c = g.add_node((5.0, 6.0));
    assert_eq!(c, 2);
    assert_eq!(g.node_count(), 2);
    assert!(g.set_node(b, (7.0, 8.0)));
    assert_eq!(g.get_node(b), Some(&(7.0, 8.0)));
    assert!(!g.set_node(a, (0.0, 0.0)));
}

#[test]
fn add_edge_rejects_loops_and_missing_nodes() {
    let mut g = G::new();
    let a = g.add_node((0.0, 0.0));
    let b = g.add_node((1.0, 0.0));
    let v = g.geom_version();
    assert_eq!(g.add_edge(a, a, ()), None);
    assert_eq!(g.add_edge(a, 9, ()), None);
    assert_eq!(g.add_edge(9, b, ()), None);
    assert_eq!(g.geom_version(), v);
    assert_eq!(g.add_edge(a, b, ()), Some(0));
    assert_eq!(g.geom_version(), v + 1);
    let e = g.get_edge(0).unwrap();
    assert_eq!((e.a, e.b), (a, b));
    assert_eq!(e.stroke, None);
}

#[test]
fn new_edges_join_the_default_group() {
    let mut g = G::new();
    let (e0, _, _) = triangle(&mut g);
    let root = g.default_group().unwrap();
    assert_eq!(g.get_edge_group(e0), Some(root));
    assert_eq!(g.get_edge_layer(e0), Some(0));
    assert!(g.is_edge_visible(e0));
}

#[test]
fn polyline_edges_join_no_group() {
    let mut g = G::new();
    let a = g.add_node((0.0, 0.0));
    let b = g.add_node((1.0, 0.0));
    let e = g.add_polyline_edge(a, b, ()).unwrap();
    assert_eq!(g.get_edge_group(e), None);
    assert!(g.is_edge_visible(e));
}

#[test]
fn removing_a_node_removes_its_edges() {
    let mut g = G::new();
    let (e0, e1, e2) = triangle(&mut g);
    let v = g.geom_version();
    assert!(g.remove_node(1));
    assert!(g.get_edge(e0).is_none());
    assert!(g.get_edge(e1).is_none());
    assert!(g.get_edge(e2).is_some());
    assert_eq!(g.edge_count(), 1);
    assert_eq!(g.node_count(), 2);
    assert_eq!(g.geom_version(), v + 1);
}

#[test]
fn removing_an_edge_takes_it_out_of_its_group() {
    let mut g = G::new();
    let (e0, e1, _) = triangle(&mut g);
    let root = g.default_group().unwrap();
    assert!(g.remove_edge(e0));
    assert!(!g.remove_edge(e0));
    assert_eq!(g.get_edge_group(e0), None);
    assert_eq!(g.get_edge_group(e1), Some(root));
    assert_eq!(g.edge_ids(), vec![1, 2]);
}

#[test]
fn stroke_and_geometry_setters() {
    let mut g: Graph<(f32, f32), u8> = Graph::new();
    let a = g.add_node((0.0, 0.0));
    let b = g.add_node((1.0, 0.0));
    let e = g.add_edge(a, b, 1).unwrap();
    let red = Color { r: 255, g: 0, b: 0, a: 255 };
    assert!(g.set_edge_stroke(e, Some(red)));
    assert!(g.set_edge_geometry(e, 7));
    let edge = g.get_edge(e).unwrap();
    assert_eq!(edge.stroke, Some(red));
    assert_eq!(edge.geometry, 7);
    assert!(!g.set_edge_stroke(5, None));
    assert!(!g.set_edge_geometry(5, 0));
}

#[test]
fn region_fills_default_to_filled_without_color() {
    let mut g = G::new();
    assert_eq!(g.get_region_fill(42), None);
    assert!(!g.toggle_region(42));
    assert_eq!(g.get_region_fill(42), Some(FillState { filled: false, color: None }));
    assert!(g.toggle_region(42));
    g.set_region_color(42, 1, 2, 3, 4);
    g.set_region_fill(42, false);
    assert_eq!(
        g.get_region_fill(42),
        Some(FillState { filled: false, color: Some(Color { r: 1, g: 2, b: 3, a: 4 }) })
    );
}

#[test]
fn toggling_twice_restores_the_fill() {
    let mut g = G::new();
    g.set_region_color(7, 9, 9, 9, 9);
    let before = g.get_region_fill(7);
    g.toggle_region(7);
    g.toggle_region(7);
    assert_eq!(g.get_region_fill(7), before);
}

#[test]
fn clear_empties_everything_but_layers() {
    let mut g = G::new();
    triangle(&mut g);
    g.create_shape(&[0, 1, 2], true).unwrap();
    g.toggle_region(3);
    let l = g.create_layer("L".to_string());
    let v = g.geom_version();
    g.clear();
    assert_eq!(g.node_count(), 0);
    assert_eq!(g.edge_count(), 0);
    assert_eq!(g.shape_count(), 0);
    assert_eq!(g.get_region_fill(3), None);
    assert_eq!(g.geom_version(), v + 1);
    assert_eq!(g.layer_system.layers.len(), 2);
    assert!(g.layer_system.get_layer(l).is_some());
}

#[test]
fn geometry_version_wraps() {
    let mut g = G::new();
    g.geom_ver = u64::MAX;
    g.bump();
    assert_eq!(g.geom_version(), 0);
}

#[test]
fn id_lists_and_counts_agree() {
    let mut g: G = Graph::new();
    let ids: Vec<u32> = (0..5).map(|i| g.add_node((i as f32, 0.0))).collect();
    g.add_edge(ids[0], ids[1], ()).unwrap();
    g.add_edge(ids[1], ids[2], ()).unwrap();
    g.add_edge(ids[3], ids[4], ()).unwrap();
    assert!(g.remove_node(ids[1]));
    assert_eq!(g.node_ids().len(), g.node_count() as usize);
    assert_eq!(g.node_count(), 4);
    assert_eq!(g.edge_ids().len(), g.edge_count() as usize);
    assert_eq!(g.edge_ids(), vec![2]);
}

#[test]
fn replacing_fills_keeps_the_rest() {
    let mut g: G = Graph::new();
    g.set_region_fill(1, false);
    let ver = g.geom_version();
    let mut fills = std::collections::HashMap::new();
    fills.insert(9, FillState { filled: false, color: Some(Color { r: 1, g: 2, b: 3, a: 4 }) });
    g.replace_fills(fills);
    assert_eq!(g.get_region_fill(1), None);
    assert_eq!(g.get_region_fill(9), Some(FillState { filled: false, color: Some(Color { r: 1, g: 2, b: 3, a: 4 }) }));
    assert_eq!(g.geom_version(), ver);
}
