use contour::api::{edge_exists, region_exists};
use contour::graph::Graph;
use contour::model::{
    parse_gradient_units, parse_spread_method, GradientUnits, HandleMode, SpreadMethod,
};

#[test]
fn edge_exists_tracks_live_edges() {
    let mut g: Graph<(), ()> = Graph::new();
    let a = g.add_node(());
    let b = g.add_node(());
    let e = g.add_edge(a, b, ()).unwrap();
    assert!(edge_exists(&g, e));
    assert!(!edge_exists(&g, e + 1));
    g.remove_edge(e);
    assert!(!edge_exists(&g, e));
}

#[test]
fn region_exists_looks_up_keys() {
    assert!(region_exists(&[4, 8, 15], 8));
    assert!(!region_exists(&[4, 8, 15], 16));
    assert!(!region_exists(&[], 0));
}

#[test]
fn gradient_parameters_decode_with_defaults() {
    assert_eq!(parse_gradient_units(1), GradientUnits::UserSpaceOnUse);
    assert_eq!(parse_gradient_units(0), GradientUnits::ObjectBoundingBox);
    assert_eq!(parse_gradient_units(7), GradientUnits::ObjectBoundingBox);
    assert_eq!(parse_spread_method(0), SpreadMethod::Pad);
    assert_eq!(parse_spread_method(1), SpreadMethod::Reflect);
    assert_eq!(parse_spread_method(2), SpreadMethod::Repeat);
    assert_eq!(parse_spread_method(3), SpreadMethod::Pad);
}

#[test]
fn handle_mode_codes_round_trip() {
    for m in [HandleMode::Free, HandleMode::Mirrored, HandleMode::Aligned] {
        assert_eq!(HandleMode::from_code(m.code()), m);
    }
    assert_eq!(HandleMode::from_code(9), HandleMode::Free);
    assert_eq!(HandleMode::Aligned.code(), 2);
}
