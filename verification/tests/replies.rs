use contour::errors::{ApiError, DataValue, Reply};
use contour::graph::Graph;
use contour::replies::remove_gradient_res;
use contour::store::Gradients;

type G = Graph<(), ()>;

fn failure<V>(r: Reply<V>) -> ApiError {
    match r {
        Reply::Failure(e) => e,
        Reply::Success(_) => panic!("expected an error"),
    }
}

fn success<V>(r: Reply<V>) -> V {
    match r {
        Reply::Success(v) => v,
        Reply::Failure(e) => panic!("unexpected error {}", e.code),
    }
}

fn invalid_id_of(e: &ApiError) -> (String, u32) {
    assert_eq!(e.code, "invalid_id");
    let d = e.data.as_ref().unwrap();
    let kind = match &d[0].1 {
        DataValue::Text(t) => t.clone(),
        DataValue::Number(_) => panic!("kind should be text"),
    };
    let id = match &d[1].1 {
        DataValue::Number(n) => *n,
        DataValue::Text(_) => panic!("id should be a number"),
    };
    (kind, id)
}

#[test]
fn add_edge_res_checks_endpoints_in_order() {
    let mut g = G::new();
    let a = g.add_node(());
    let b = g.add_node(());
    let e = failure(g.add_edge_res(9, 8, ()));
    assert_eq!(invalid_id_of(&e), ("node".to_string(), 9));
    assert_eq!(e.message, "invalid node id");
    let e = failure(g.add_edge_res(a, 8, ()));
    assert_eq!(invalid_id_of(&e), ("node".to_string(), 8));
    let e = failure(g.add_edge_res(a, a, ()));
    assert_eq!(e.code, "invalid_edge");
    assert_eq!(e.message, "edge endpoints cannot be the same node");
    assert!(e.data.is_none());
    assert_eq!(g.edge_count(), 0);
    assert_eq!(success(g.add_edge_res(a, b, ())), 0);
    assert_eq!(g.edge_count(), 1);
}

#[test]
fn remove_res_reports_unknown_ids() {
    let mut g = G::new();
    let a = g.add_node(());
    let b = g.add_node(());
    let e = g.add_edge(a, b, ()).unwrap();
    assert_eq!(invalid_id_of(&failure(g.remove_edge_res(5))), ("edge".to_string(), 5));
    assert!(success(g.remove_edge_res(e)));
    assert_eq!(invalid_id_of(&failure(g.remove_edge_res(e))), ("edge".to_string(), e));
    assert!(success(g.remove_node_res(a)));
    assert_eq!(invalid_id_of(&failure(g.remove_node_res(a))), ("node".to_string(), a));
}

#[test]
fn create_shape_res_names_the_first_unknown_edge() {
    let mut g = G::new();
    let a = g.add_node(());
    let b = g.add_node(());
    let e = g.add_edge(a, b, ()).unwrap();
    let err = failure(g.create_shape_res(&[e, 7, 3], true));
    assert_eq!(invalid_id_of(&err), ("edge".to_string(), 7));
    assert_eq!(g.shape_count(), 0);
    let sid = success(g.create_shape_res(&[e], false));
    assert_eq!(sid, 0);
    assert_eq!(success(g.get_shape_edges_res(sid)), vec![e]);
    assert_eq!(invalid_id_of(&failure(g.get_shape_edges_res(4))), ("shape".to_string(), 4));
    assert!(success(g.delete_shape_res(sid)));
    assert_eq!(invalid_id_of(&failure(g.delete_shape_res(sid))), ("shape".to_string(), sid));
}

#[test]
fn region_res_checks_the_region_list() {
    let mut g = G::new();
    let keys = [10u32, 20];
    assert_eq!(invalid_id_of(&failure(g.toggle_region_res(&keys, 30))), ("region".to_string(), 30));
    assert_eq!(g.get_region_fill(30), None);
    assert!(!success(g.toggle_region_res(&keys, 10)));
    assert!(success(g.set_region_fill_res(&keys, 20, false)));
    assert!(success(g.set_region_color_res(&keys, 20, 1, 2, 3, 4)));
    assert!(!g.get_region_fill(20).unwrap().filled);
    assert_eq!(invalid_id_of(&failure(g.set_region_color_res(&keys, 5, 0, 0, 0, 0))), ("region".to_string(), 5));
}

#[test]
fn layer_and_group_res() {
    let mut g = G::new();
    let a = g.add_node(());
    let b = g.add_node(());
    let e = g.add_edge(a, b, ()).unwrap();
    let l = success(g.create_layer_res("L".to_string()));
    assert_eq!(l, 2);
    assert!(success(g.rename_layer_res(l, "M".to_string())));
    assert!(success(g.set_layer_visibility_res(l, false)));
    assert!(success(g.set_layer_z_index_res(l, 4)));
    assert_eq!(invalid_id_of(&failure(g.rename_layer_res(99, "x".to_string()))), ("layer".to_string(), 99));
    assert_eq!(invalid_id_of(&failure(g.set_layer_visibility_res(99, true))), ("layer".to_string(), 99));
    assert_eq!(invalid_id_of(&failure(g.set_layer_z_index_res(99, 1))), ("layer".to_string(), 99));
    let root = g.default_group().unwrap();
    let grp = success(g.create_group_res("G".to_string(), root));
    assert_eq!(invalid_id_of(&failure(g.create_group_res("G".to_string(), 77))), ("group".to_string(), 77));
    assert!(success(g.rename_group_res(grp, "H".to_string())));
    assert!(success(g.set_group_visibility_res(grp, false)));
    assert_eq!(invalid_id_of(&failure(g.add_edge_to_group_res(e + 1, grp))), ("edge".to_string(), e + 1));
    assert!(success(g.add_edge_to_group_res(e, grp)));
    assert_eq!(invalid_id_of(&failure(g.add_edge_to_group_res(e, 77))), ("group".to_string(), 77));
    assert_eq!(g.get_edge_group(e), None);
    assert_eq!(invalid_id_of(&failure(g.remove_group_res(root))), ("group".to_string(), root));
    assert!(success(g.remove_group_res(grp)));
    assert!(success(g.remove_layer_res(l, true)));
    assert_eq!(invalid_id_of(&failure(g.remove_layer_res(l, true))), ("layer".to_string(), l));
}

#[test]
fn gradient_res() {
    let mut g = G::new();
    let mut gs: Gradients<u8> = Gradients::new();
    assert_eq!(invalid_id_of(&failure(g.set_region_gradient_res(1, 0, &gs))), ("gradient".to_string(), 0));
    let id = gs.add(3);
    assert!(success(g.set_region_gradient_res(1, id, &gs)));
    assert!(success(remove_gradient_res(&mut gs, id)));
    assert_eq!(invalid_id_of(&failure(remove_gradient_res(&mut gs, id))), ("gradient".to_string(), id));
}

#[test]
fn infer_shapes_res_lists_new_shapes() {
    let mut g = G::new();
    let n: Vec<u32> = (0..3).map(|_| g.add_node(())).collect();
    g.add_edge(n[0], n[1], ());
    g.add_edge(n[1], n[2], ());
    g.add_edge(n[2], n[0], ());
    assert_eq!(success(g.infer_shapes_res()), vec![0]);
    assert_eq!(success(g.infer_shapes_res()), Vec::<u32>::new());
}

#[test]
fn incident_edges_are_the_ones_node_removal_removes() {
    let mut g = G::new();
    let n: Vec<u32> = (0..4).map(|_| g.add_node(())).collect();
    g.add_edge(n[0], n[1], ());
    g.add_edge(n[1], n[2], ());
    g.add_edge(n[2], n[3], ());
    g.add_edge(n[3], n[1], ());
    assert_eq!(g.incident_edges(n[1]), vec![0, 1, 3]);
    assert_eq!(g.node_ids(), vec![0, 1, 2, 3]);
    g.remove_node(n[1]);
    assert_eq!(g.edge_ids(), vec![2]);
    assert_eq!(g.node_ids(), vec![0, 2, 3]);
    assert!(g.incident_edges(n[1]).is_empty());
}
