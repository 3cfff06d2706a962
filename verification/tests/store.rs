use contour::graph::Graph;
use contour::model::FillState;
use contour::store::{Gradients, Slots};

#[test]
fn slots_hand_out_indices_and_keep_removed_slots_empty() {
    let mut s: Slots<&str> = Slots::new();
    assert_eq!(s.add("One"), 0);
    assert_eq!(s.add("Two"), 1);
    assert_eq!(s.add("Three"), 2);
    assert_eq!(s.count(), 3);
    assert_eq!(s.ids(), vec![0, 1, 2]);
    assert!(s.remove(1));
    assert!(!s.remove(1));
    assert!(!s.remove(999));
    assert_eq!(s.get(1), None);
    assert_eq!(s.get(2), Some(&"Three"));
    assert_eq!(s.ids(), vec![0, 2]);
    assert_eq!(s.count(), 2);
    assert_eq!(s.add("Four"), 3);
}

#[test]
fn gradients_get_increasing_ids() {
    let mut gs: Gradients<char> = Gradients::new();
    assert_eq!(gs.add('a'), 0);
    assert_eq!(gs.add('b'), 1);
    assert_eq!(gs.add('c'), 2);
    assert_eq!(gs.get(1), Some(&'b'));
    assert!(gs.remove(1));
    assert!(!gs.remove(1));
    assert!(!gs.contains(1));
    assert_eq!(gs.ids(), vec![0, 2]);
    assert!(gs.update(2, 'z'));
    assert!(!gs.update(1, 'y'));
    assert_eq!(gs.get(2), Some(&'z'));
    assert_eq!(gs.get(1), None);
    assert_eq!(gs.add('d'), 3);
}

#[test]
fn region_gradient_needs_an_existing_gradient() {
    let mut g: Graph<(), ()> = Graph::new();
    let mut gs: Gradients<u8> = Gradients::new();
    assert!(!g.set_region_gradient(5, 0, &gs));
    assert_eq!(g.get_region_fill(5), None);
    let id = gs.add(1);
    g.set_region_color(5, 1, 2, 3, 4);
    g.set_region_fill(5, false);
    assert!(g.set_region_gradient(5, id, &gs));
    assert_eq!(g.get_region_fill(5), Some(FillState { filled: false, color: None }));
    assert!(g.set_region_gradient(6, id, &gs));
    assert_eq!(g.get_region_fill(6), Some(FillState { filled: true, color: None }));
}
