use contour::graph::Graph;

type G = Graph<(), ()>;

fn with_edges(n: u32) -> G {
    let mut g = G::new();
    let mut prev = g.add_node(());
    for _ in 0..n {
        let next = g.add_node(());
        g.add_edge(prev, next, ()).unwrap();
        prev = next;
    }
    g
}

#[test]
fn visible_edges_follow_layer_and_group_visibility() {
    let mut g = with_edges(3);
    let root = g.default_group().unwrap();
    let grp = g.create_group("G".to_string(), root).unwrap();
    assert!(g.add_edge_to_group(1, grp));
    assert_eq!(g.get_visible_edges(), vec![0, 1, 2]);
    let v = g.geom_version();
    assert!(g.set_group_visibility(grp, false));
    assert_eq!(g.geom_version(), v + 1);
    assert_eq!(g.get_visible_edges(), vec![0, 2]);
    assert!(g.set_layer_visibility(0, false));
    assert_eq!(g.get_visible_edges(), Vec::<u32>::new());
    assert!(!g.set_layer_visibility(42, true));
    assert_eq!(g.geom_version(), v + 2);
}

#[test]
fn removing_a_layer_can_remove_its_edges() {
    let mut g = with_edges(3);
    let l2 = g.create_layer("L2".to_string());
    let root2 = g.layer_system.get_layer(l2).unwrap().root_group;
    g.add_edge_to_group(0, root2);
    g.add_edge_to_group(2, root2);
    let v = g.geom_version();
    assert!(g.remove_layer(l2, true));
    assert!(g.get_edge(0).is_none());
    assert!(g.get_edge(1).is_some());
    assert!(g.get_edge(2).is_none());
    assert_eq!(g.geom_version(), v + 2);
    assert!(!g.remove_layer(l2, true));
}

#[test]
fn removing_a_layer_can_keep_its_edges() {
    let mut g = with_edges(2);
    let l2 = g.create_layer("L2".to_string());
    let root2 = g.layer_system.get_layer(l2).unwrap().root_group;
    g.add_edge_to_group(0, root2);
    let v = g.geom_version();
    assert!(g.remove_layer(l2, false));
    assert!(g.get_edge(0).is_some());
    assert_eq!(g.get_edge_group(0), None);
    assert_eq!(g.geom_version(), v);
}

#[test]
fn layer_and_group_edits_through_the_graph() {
    let mut g = with_edges(1);
    let l = g.create_layer("Top".to_string());
    assert!(g.rename_layer(l, "Renamed".to_string()));
    assert!(g.set_layer_z_index(l, 9));
    let layer = g.layer_system.get_layer(l).unwrap();
    assert_eq!(layer.name, "Renamed");
    assert_eq!(layer.z_index, 9);
    let root = g.default_group().unwrap();
    let grp = g.create_group("G".to_string(), root).unwrap();
    assert!(g.rename_group(grp, "H".to_string()));
    assert!(g.add_edge_to_group(0, grp));
    assert_eq!(g.get_edge_group(0), Some(grp));
    assert!(g.remove_group(grp));
    assert_eq!(g.get_edge_group(0), Some(root));
    assert_eq!(g.create_group("x".to_string(), 999), None);
}
