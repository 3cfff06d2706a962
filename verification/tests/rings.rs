use contour::graph::Graph;

type G = Graph<(), ()>;

#[test]
fn triangle_is_one_ring() {
    let mut g = G::new();
    let n: Vec<u32> = (0..3).map(|_| g.add_node(())).collect();
    g.add_edge(n[0], n[1], ());
    g.add_edge(n[1], n[2], ());
    g.add_edge(n[2], n[0], ());
    let rings = g.simple_rings();
    assert_eq!(rings.len(), 1);
    assert_eq!(rings[0].nodes, vec![0, 1, 2]);
    assert_eq!(rings[0].edges, vec![0, 1, 2]);
}

#[test]
fn open_chain_has_no_ring() {
    let mut g = G::new();
    let n: Vec<u32> = (0..4).map(|_| g.add_node(())).collect();
    g.add_edge(n[0], n[1], ());
    g.add_edge(n[1], n[2], ());
    g.add_edge(n[2], n[3], ());
    assert!(g.simple_rings().is_empty());
}

#[test]
fn two_separate_rings_in_start_order() {
    let mut g = G::new();
    let n: Vec<u32> = (0..7).map(|_| g.add_node(())).collect();
    // A square on nodes 3..7 and a triangle on nodes 0..3, edges added square first.
    g.add_edge(n[3], n[4], ()); // 0
    g.add_edge(n[4], n[5], ()); // 1
    g.add_edge(n[5], n[6], ()); // 2
    g.add_edge(n[6], n[3], ()); // 3
    g.add_edge(n[0], n[1], ()); // 4
    g.add_edge(n[1], n[2], ()); // 5
    g.add_edge(n[2], n[0], ()); // 6
    let rings = g.simple_rings();
    assert_eq!(rings.len(), 2);
    assert_eq!(rings[0].nodes, vec![0, 1, 2]);
    assert_eq!(rings[0].edges, vec![4, 5, 6]);
    assert_eq!(rings[1].nodes, vec![3, 4, 5, 6]);
    assert_eq!(rings[1].edges, vec![0, 1, 2, 3]);
}

#[test]
fn parallel_edges_use_the_first_joining_edge() {
    let mut g = G::new();
    let n: Vec<u32> = (0..3).map(|_| g.add_node(())).collect();
    g.add_edge(n[0], n[1], ()); // 0
    g.add_edge(n[1], n[2], ()); // 1
    g.add_edge(n[2], n[0], ()); // 2
    g.add_edge(n[1], n[0], ()); // 3, parallel to 0
    // Node 2 still has two neighbors; its walk goes 2 -> 1 -> 0 -> 2.
    let rings = g.simple_rings();
    assert_eq!(rings.len(), 1);
    assert_eq!(rings[0].nodes, vec![2, 1, 0]);
    assert_eq!(rings[0].edges, vec![1, 0, 2]);
}
