use contour::graph::Graph;

fn path() -> Graph<(f32, f32), ()> {
    // 0 -e0- 1 -e1- 2
    let mut g: Graph<(f32, f32), ()> = Graph::new();
    let a = g.add_node((0.0, 0.0));
    let b = g.add_node((1.0, 0.0));
    let c = g.add_node((2.0, 0.0));
    g.add_edge(a, b, ()).unwrap();
    g.add_edge(b, c, ()).unwrap();
    g
}

#[test]
fn dragging_without_split_moves_the_ends() {
    let mut g = path();
    let ver = g.geom_version();
    let (moving, copied) = g.nodes_to_translate(&[0], false);
    assert_eq!(moving, vec![0, 1]);
    assert!(copied.is_empty());
    assert_eq!(g.node_count(), 3);
    assert_eq!(g.geom_version(), ver);
}

#[test]
fn dragging_with_split_detaches_shared_ends() {
    let mut g = path();
    let ver = g.geom_version();
    let (moving, copied) = g.nodes_to_translate(&[0, 99], true);
    assert_eq!(copied, vec![1]);
    assert_eq!(moving, vec![3]);
    assert_eq!(g.get_node(3), Some(&(1.0, 0.0)));
    let e0 = g.get_edge(0).unwrap();
    assert_eq!((e0.a, e0.b), (0, 3));
    let e1 = g.get_edge(1).unwrap();
    assert_eq!((e1.a, e1.b), (1, 2));
    assert_eq!(g.geom_version(), ver + 1);
}

#[test]
fn dragging_everything_splits_nothing() {
    let mut g = path();
    let (moving, copied) = g.nodes_to_translate(&[1, 0], true);
    assert!(copied.is_empty());
    assert_eq!(moving, vec![0, 1, 2]);
    assert_eq!(g.node_count(), 3);
}

#[test]
fn dragging_unknown_edges_moves_nothing() {
    let mut g = path();
    let (moving, copied) = g.nodes_to_translate(&[7, 8], true);
    assert!(moving.is_empty());
    assert!(copied.is_empty());
}

#[test]
fn a_star_centre_is_copied_once() {
    // Three edges from centre 0; drag two of them.
    let mut g: Graph<(f32, f32), ()> = Graph::new();
    let c = g.add_node((0.0, 0.0));
    for i in 0..3 {
        let n = g.add_node((i as f32, 1.0));
        g.add_edge(c, n, ()).unwrap();
    }
    let (moving, copied) = g.nodes_to_translate(&[0, 1], true);
    assert_eq!(copied, vec![0]);
    assert_eq!(moving, vec![4]);
    assert_eq!(g.get_edge(0).unwrap().a, 4);
    assert_eq!(g.get_edge(1).unwrap().a, 4);
    assert_eq!(g.get_edge(2).unwrap().a, 0);
}
