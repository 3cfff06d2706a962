use contour::layers::LayerSystem;

#[test]
fn test_create_layer() {
    let mut sys = LayerSystem::new();
    assert_eq!(sys.layers.len(), 1);
    assert_eq!(sys.layers[0].name, "Layer 1");

    let id = sys.create_layer("Layer 2".to_string());
    assert_eq!(sys.layers.len(), 2);
    assert!(sys.get_layer(id).is_some());
}

#[test]
fn test_create_group() {
    let mut sys = LayerSystem::new();
    let root = sys.default_group().unwrap();

    let gid = sys.create_group("My Group".to_string(), root).unwrap();
    assert!(sys.get_group(gid).is_some());
    assert_eq!(sys.get_group(gid).unwrap().name, "My Group");
}

#[test]
fn test_edge_to_group() {
    let mut sys = LayerSystem::new();
    let root = sys.default_group().unwrap();

    sys.add_edge_to_group(0, root);
    assert_eq!(sys.get_edge_group(0), Some(root));

    let gid = sys.create_group("G".to_string(), root).unwrap();
    sys.add_edge_to_group(0, gid);
    assert_eq!(sys.get_edge_group(0), Some(gid));
}

#[test]
fn test_visibility_chain() {
    let mut sys = LayerSystem::new();
    let layer_id = sys.layers[0].id;
    let root = sys.default_group().unwrap();

    let g1 = sys.create_group("G1".to_string(), root).unwrap();
    let g2 = sys.create_group("G2".to_string(), g1).unwrap();

    sys.add_edge_to_group(0, g2);

    assert!(sys.is_edge_visible(0));

    sys.set_group_visibility(g1, false);
    assert!(!sys.is_edge_visible(0));

    sys.set_group_visibility(g1, true);
    assert!(sys.is_edge_visible(0));

    sys.set_layer_visibility(layer_id, false);
    assert!(!sys.is_edge_visible(0));
}

#[test]
fn new_system_has_one_layer_with_root_group() {
    let sys = LayerSystem::new();
    assert_eq!(sys.layers[0].id, 0);
    assert_eq!(sys.layers[0].root_group, 1);
    assert_eq!(sys.next_id, 2);
    let root = sys.get_group(1).unwrap();
    assert_eq!(root.name, "Layer 1 (root)");
    assert_eq!(root.parent, None);
    assert_eq!(sys.default_group(), Some(1));
}

#[test]
fn created_layer_gets_next_ids_and_z_index() {
    let mut sys = LayerSystem::new();
    let id = sys.create_layer("Top".to_string());
    assert_eq!(id, 2);
    let layer = sys.get_layer(id).unwrap();
    assert_eq!(layer.root_group, 3);
    assert_eq!(layer.z_index, 1);
    assert!(layer.visible);
    assert_eq!(sys.get_group(3).unwrap().name, "Top (root)");
    assert_eq!(sys.next_id, 4);
}

#[test]
fn unknown_ids_are_refused() {
    let mut sys = LayerSystem::new();
    assert!(!sys.set_layer_visibility(77, false));
    assert!(!sys.set_layer_z_index(77, 3));
    assert!(!sys.rename_layer(77, "x".to_string()));
    assert!(!sys.set_group_visibility(77, false));
    assert!(!sys.rename_group(77, "x".to_string()));
    assert_eq!(sys.create_group("orphan".to_string(), 77), None);
    assert!(!sys.add_edge_to_group(5, 77));
    assert_eq!(sys.get_edge_group(5), None);
    assert!(sys.remove_layer(77).is_none());
    assert!(!sys.remove_group(77));
}

#[test]
fn adding_to_unknown_group_leaves_edge_without_group() {
    let mut sys = LayerSystem::new();
    let root = sys.default_group().unwrap();
    sys.add_edge_to_group(4, root);
    assert!(!sys.add_edge_to_group(4, 99));
    assert_eq!(sys.get_edge_group(4), None);
    assert!(sys.get_group(root).unwrap().edges.is_empty());
}

#[test]
fn root_group_cannot_be_removed() {
    let mut sys = LayerSystem::new();
    let root = sys.default_group().unwrap();
    assert!(!sys.remove_group(root));
    assert!(sys.get_group(root).is_some());
}

#[test]
fn removing_group_moves_edges_and_children_to_parent() {
    let mut sys = LayerSystem::new();
    let root = sys.default_group().unwrap();
    let g1 = sys.create_group("G1".to_string(), root).unwrap();
    let g2 = sys.create_group("G2".to_string(), g1).unwrap();
    sys.add_edge_to_group(7, g1);
    sys.add_edge_to_group(8, root);
    assert!(sys.remove_group(g1));
    assert!(sys.get_group(g1).is_none());
    assert_eq!(sys.get_edge_group(7), Some(root));
    assert_eq!(sys.get_group(g2).unwrap().parent, Some(root));
    let r = sys.get_group(root).unwrap();
    assert_eq!(r.edges, vec![8, 7]);
    assert_eq!(r.children, vec![g2]);
}

#[test]
fn removing_layer_returns_its_edges() {
    let mut sys = LayerSystem::new();
    let l2 = sys.create_layer("L2".to_string());
    let root2 = sys.get_layer(l2).unwrap().root_group;
    let g = sys.create_group("G".to_string(), root2).unwrap();
    sys.add_edge_to_group(1, root2);
    sys.add_edge_to_group(2, g);
    let root1 = sys.default_group().unwrap();
    sys.add_edge_to_group(3, root1);
    let mut removed = sys.remove_layer(l2).unwrap();
    removed.sort();
    assert_eq!(removed, vec![1, 2]);
    assert_eq!(sys.layers.len(), 1);
    assert!(sys.get_group(root2).is_none());
    assert!(sys.get_group(g).is_none());
    assert_eq!(sys.get_edge_group(1), None);
    assert_eq!(sys.get_edge_group(2), None);
    assert_eq!(sys.get_edge_group(3), Some(1));
}

#[test]
fn edge_layer_follows_the_group_chain() {
    let mut sys = LayerSystem::new();
    let root = sys.default_group().unwrap();
    let g1 = sys.create_group("G1".to_string(), root).unwrap();
    let g2 = sys.create_group("G2".to_string(), g1).unwrap();
    sys.add_edge_to_group(9, g2);
    assert_eq!(sys.get_edge_layer(9), Some(0));
    assert_eq!(sys.find_layer_for_group(g2), Some(0));
    assert_eq!(sys.get_edge_layer(10), None);
    assert!(sys.is_edge_visible(10));
}

#[test]
fn hidden_layer_hides_edges_in_nested_groups() {
    let mut sys = LayerSystem::new();
    let l2 = sys.create_layer("L2".to_string());
    let root2 = sys.get_layer(l2).unwrap().root_group;
    let g = sys.create_group("G".to_string(), root2).unwrap();
    sys.add_edge_to_group(5, g);
    assert!(sys.is_edge_visible(5));
    sys.set_layer_visibility(l2, false);
    assert!(!sys.is_edge_visible(5));
    sys.set_layer_visibility(l2, true);
    sys.set_group_visibility(root2, false);
    assert!(!sys.is_edge_visible(5));
}

#[test]
fn layers_ordered_sorts_by_z_and_keeps_ties_in_order() {
    let mut sys = LayerSystem::new();
    let l2 = sys.create_layer("B".to_string());
    let l3 = sys.create_layer("C".to_string());
    sys.set_layer_z_index(0, 5);
    sys.set_layer_z_index(l2, 1);
    sys.set_layer_z_index(l3, 1);
    let ids: Vec<u32> = sys.layers_ordered().iter().map(|l| l.id).collect();
    assert_eq!(ids, vec![l2, l3, 0]);
}

#[test]
fn rename_and_z_index_change_only_their_field() {
    let mut sys = LayerSystem::new();
    assert!(sys.rename_layer(0, "Base".to_string()));
    assert!(sys.set_layer_z_index(0, -3));
    let l = sys.get_layer(0).unwrap();
    assert_eq!(l.name, "Base");
    assert_eq!(l.z_index, -3);
    assert!(l.visible);
    let root = sys.default_group().unwrap();
    assert!(sys.rename_group(root, "R".to_string()));
    assert_eq!(sys.get_group(root).unwrap().name, "R");
    assert!(sys.get_group(root).unwrap().visible);
}

#[test]
fn edge_moves_between_groups_without_duplicates() {
    let mut sys = LayerSystem::new();
    let root = sys.default_group().unwrap();
    let g = sys.create_group("G".to_string(), root).unwrap();
    sys.add_edge_to_group(1, root);
    sys.add_edge_to_group(1, root);
    assert_eq!(sys.get_group(root).unwrap().edges, vec![1]);
    sys.add_edge_to_group(1, g);
    assert!(sys.get_group(root).unwrap().edges.is_empty());
    assert_eq!(sys.get_group(g).unwrap().edges, vec![1]);
    sys.remove_edge(1);
    assert_eq!(sys.get_edge_group(1), None);
    assert!(sys.get_group(g).unwrap().edges.is_empty());
}
