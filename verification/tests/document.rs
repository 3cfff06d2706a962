use contour::document::{DocumentData, EdgeRecord, LayerData, LoadError, NodeRecord};
use contour::graph::Graph;
use contour::layers::{Group, Layer};
use contour::model::FillState;
use contour::store::Gradients;
use contour::text::{TextStyle, Texts};
use std::collections::HashMap;

type G = Graph<(i32, i32), u8>;

fn sample() -> G {
    let mut g = G::new();
    let a = g.add_node((0, 0));
    let b = g.add_node((10, 0));
    let c = g.add_node((5, 9));
    let d = g.add_node((7, 7));
    g.add_edge(a, b, 1).unwrap();
    g.add_edge(b, c, 2).unwrap();
    g.add_edge(c, a, 3).unwrap();
    g.add_edge(c, d, 4).unwrap();
    assert!(g.remove_node(d));
    g.set_region_fill(42, false);
    g
}

fn flags(d: &DocumentData<(i32, i32), u8>) -> (Vec<bool>, Vec<usize>) {
    (vec![true; d.nodes.len() + d.edges.len()], vec![0; d.edges.len()])
}

fn node(id: u32, x: i32) -> NodeRecord<(i32, i32)> {
    NodeRecord { id, data: (x, 0) }
}

fn edge(id: u32, a: u32, b: u32) -> EdgeRecord<u8> {
    EdgeRecord { id, a, b, stroke: None, geometry: 0 }
}

fn doc(nodes: Vec<NodeRecord<(i32, i32)>>, edges: Vec<EdgeRecord<u8>>) -> DocumentData<(i32, i32), u8> {
    DocumentData { nodes, edges, fills: HashMap::new(), layers: None }
}

#[test]
fn save_then_load_reproduces_the_drawing() {
    let g = sample();
    let d = g.to_document();
    assert_eq!(d.nodes.len(), 3);
    assert_eq!(d.edges.len(), 3);
    let (ok, points) = flags(&d);
    let mut h = G::new();
    let v = h.geom_version();
    assert_eq!(h.load_document(d, &ok, &points), Ok(()));
    for id in 0..4 {
        assert_eq!(h.get_node(id), g.get_node(id));
        assert_eq!(h.get_edge(id).map(|e| (e.a, e.b, e.geometry)), g.get_edge(id).map(|e| (e.a, e.b, e.geometry)));
    }
    assert_eq!(h.get_region_fill(42), Some(FillState { filled: false, color: None }));
    assert_eq!(h.get_edge_layer(0), Some(0));
    assert_eq!(h.geom_version(), v.wrapping_add(1));
    assert_eq!(h.layer_system.next_id, g.layer_system.next_id);
}

#[test]
fn saved_groups_are_in_id_order_with_their_edges() {
    let g = sample();
    let d = g.to_document();
    let ld = d.layers.unwrap();
    assert_eq!(ld.layers.len(), 1);
    assert_eq!(ld.groups.len(), 1);
    assert_eq!(ld.groups[0].id, ld.layers[0].root_group);
    assert_eq!(ld.groups[0].edges, vec![0, 1, 2, 3]);
}

#[test]
fn self_loop_is_refused_and_nothing_changes() {
    let mut g = sample();
    let d = doc(vec![node(0, 0), node(1, 1)], vec![edge(0, 0, 1), edge(1, 1, 1)]);
    let (ok, points) = flags(&d);
    assert_eq!(g.load_document(d, &ok, &points), Err(LoadError::EndpointsEqual(1)));
    assert_eq!(g.node_count(), 3);
    assert_eq!(g.edge_count(), 3);
}

#[test]
fn problems_come_in_order() {
    let mut g = G::new();
    let d = doc(vec![node(0, 0), node(1, 1)], vec![edge(0, 0, 0)]);
    let ok = vec![true, false, true];
    assert_eq!(g.load_document(d, &ok, &[0]), Err(LoadError::NodeOutOfBounds(1)));
    let d = doc(vec![node(0, 0), node(1, 1)], vec![edge(0, 0, 1)]);
    assert_eq!(g.load_document(d, &[true, true, false], &[0]), Err(LoadError::EdgeOutOfBounds(0)));
    let d = doc(vec![node(0, 0), node(1, 1)], vec![edge(0, 0, 1)]);
    assert_eq!(g.load_document(d, &[true, true, false], &[8001]), Err(LoadError::TooManyPointsOnEdge(0)));
    let d = doc(vec![node(0, 0), node(1, 1)], vec![edge(0, 0, 1), edge(1, 1, 0), edge(2, 0, 1)]);
    let ok = vec![true; 5];
    assert_eq!(g.load_document(d, &ok, &[8000, 8000, 8000]), Ok(()));
    let many: Vec<NodeRecord<(i32, i32)>> = (0..200_001).map(|i| node(i, 0)).collect();
    let n = many.len();
    assert_eq!(g.load_document(doc(many, vec![]), &vec![true; n], &[]), Err(LoadError::TooManyNodes));
}

#[test]
fn edges_with_a_missing_end_are_dropped_and_slots_follow_ids() {
    let mut g = G::new();
    let d = doc(vec![node(3, 7), node(0, 1)], vec![edge(5, 0, 3), edge(2, 0, 9)]);
    let (ok, points) = flags(&d);
    assert_eq!(g.load_document(d, &ok, &points), Ok(()));
    assert_eq!(g.nodes.len(), 4);
    assert_eq!(g.get_node(3), Some(&(7, 0)));
    assert_eq!(g.edges.len(), 6);
    assert!(g.get_edge(5).is_some());
    assert!(g.get_edge(2).is_none());
    assert_eq!(g.layer_system.layers.len(), 1);
    assert_eq!(g.get_edge_layer(5), Some(0));
}

#[test]
fn inconsistent_layers_are_refused() {
    let mut g = G::new();
    let layers = vec![Layer { id: 0, name: "L".to_string(), z_index: 0, visible: true, locked: false, root_group: 1 }];
    let groups = vec![Group {
        id: 1,
        name: "g".to_string(),
        parent: Some(7),
        children: vec![],
        edges: vec![],
        visible: true,
        locked: false,
    }];
    let mut d = doc(vec![node(0, 0)], vec![]);
    d.layers = Some(LayerData { layers, groups });
    assert_eq!(g.load_document(d, &[true], &[]), Err(LoadError::InvalidLayers));
}

#[test]
fn texts_and_gradients_load_by_id() {
    let mut t: Texts<u8> = Texts::new(0, TextStyle::default_style(16, 0, 1));
    let a = t.add_text("a", 0, 0);
    let b = t.add_text("b", 1, 1);
    assert!(t.remove_text(a));
    let kept = t.get_text(b).unwrap().content.clone();
    let mut u: Texts<u8> = Texts::new(0, TextStyle::default_style(16, 0, 1));
    let mut list = Vec::new();
    for id in t.get_text_ids() {
        let e = t.get_text(id).unwrap();
        list.push(contour::text::TextElement::new_label(e.id, e.content.clone(), e.position.x, e.position.y, 0, e.style.copy()));
    }
    u.load_texts(Some(list));
    assert_eq!(u.get_text_ids(), vec![b]);
    assert_eq!(u.get_text(b).unwrap().content, kept);
    u.load_texts(None);
    assert_eq!(u.text_count(), 0);
    let mut gr: Gradients<&str> = Gradients::new();
    gr.load_gradients(Some(vec![(4, "x"), (2, "y"), (4, "z")]));
    assert_eq!(gr.get(4), Some(&"z"));
    assert_eq!(gr.get(2), Some(&"y"));
    assert_eq!(gr.add("w"), 5);
    gr.load_gradients(None);
    assert_eq!(gr.ids(), Vec::<u32>::new());
}

#[test]
fn loading_keeps_the_shapes() {
    let mut g = sample();
    let s = g.create_shape(&[0, 1, 2], true).unwrap();
    let d = doc(vec![node(0, 0), node(1, 1)], vec![edge(0, 0, 1)]);
    assert_eq!(g.load_document(d, &[true, true, true], &[0]), Ok(()));
    assert_eq!(g.shape_count(), 1);
    assert_eq!(g.get_shape_edges(s), Some(&[0u32, 1, 2][..]));
    assert_eq!(g.edges.len(), 1);
}

#[test]
fn without_layers_a_new_edge_keeps_a_group_listed_for_its_id() {
    let mut g = G::new();
    let layers = vec![Layer { id: 0, name: "L".to_string(), z_index: 0, visible: true, locked: false, root_group: 1 }];
    let group = |id: u32, edges: Vec<u32>| Group {
        id,
        name: "g".to_string(),
        parent: None,
        children: vec![],
        edges,
        visible: true,
        locked: false,
    };
    let mut d = doc(vec![node(0, 0), node(1, 1)], vec![]);
    d.layers = Some(LayerData { layers, groups: vec![group(1, vec![]), group(2, vec![1])] });
    assert_eq!(g.load_document(d, &[true, true], &[]), Ok(()));
    assert!(g.remove_layer(0, false));
    assert_eq!(g.default_group(), None);
    let e = g.add_edge(0, 1, 0).unwrap();
    assert_eq!(e, 1);
    assert_eq!(g.get_edge_group(e), Some(2));
}

#[test]
fn saved_polylines_within_the_caps_are_accepted() {
    let g = sample();
    let d = g.to_document();
    let ok = vec![true; d.nodes.len() + d.edges.len()];
    let mut h = G::new();
    assert_eq!(h.load_document(d, &ok, &[8000, 8000, 8000]), Ok(()));
    assert_eq!(h.edge_count(), 3);
}
