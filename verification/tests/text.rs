use contour::errors::{DataValue, Reply};
use contour::graph::Graph;
use contour::model::{FontStyle, TextAlign, TextOverflow, VerticalAlign};
use contour::text::{TextStyle, TextType, Texts};

fn new_texts() -> Texts<f32> {
    Texts::new(0.0, TextStyle::default_style(16.0, 0.0, 1.2))
}

fn graph_with_edges(n: u32) -> Graph<(f32, f32), ()> {
    let mut g: Graph<(f32, f32), ()> = Graph::new();
    let mut prev = g.add_node((0.0, 0.0));
    for i in 0..n {
        let next = g.add_node(((i + 1) as f32, 0.0));
        g.add_edge(prev, next, ()).unwrap();
        prev = next;
    }
    g
}

fn error_code<V>(r: &Reply<V>) -> Option<String> {
    match r {
        Reply::Success(_) => None,
        Reply::Failure(e) => Some(e.code.clone()),
    }
}

#[test]
fn test_add_text_label() {
    let mut g = new_texts();

    // Add a simple text label
    let text_id = g.add_text("Hello, World!", 100.0, 50.0);
    assert_eq!(text_id, 0);

    // Verify it exists
    let text = g.get_text(text_id);
    assert!(text.is_some());

    let text = text.unwrap();
    assert_eq!(text.content, "Hello, World!");
    assert_eq!(text.position.x, 100.0);
    assert_eq!(text.position.y, 50.0);
}

#[test]
fn test_add_text_box() {
    let mut g = new_texts();

    // Add a text box
    let text_id = g.add_text_box("Lorem ipsum dolor sit amet", 10.0, 20.0, 200.0, 100.0);
    assert_eq!(text_id, 0);

    // Verify it exists
    let text = g.get_text(text_id);
    assert!(text.is_some());

    let text = text.unwrap();
    assert_eq!(text.content, "Lorem ipsum dolor sit amet");
}

#[test]
fn test_text_count_and_ids() {
    let mut g = new_texts();

    assert_eq!(g.text_count(), 0);

    g.add_text("One", 0.0, 0.0);
    g.add_text("Two", 10.0, 0.0);
    g.add_text("Three", 20.0, 0.0);

    assert_eq!(g.text_count(), 3);

    let ids = g.get_text_ids();
    assert_eq!(ids.len(), 3);
    assert!(ids.contains(&0));
    assert!(ids.contains(&1));
    assert!(ids.contains(&2));
}

#[test]
fn test_remove_text() {
    let mut g = new_texts();

    let t1 = g.add_text("First", 0.0, 0.0);
    let t2 = g.add_text("Second", 10.0, 0.0);

    assert_eq!(g.text_count(), 2);

    // Remove first text
    assert!(g.remove_text(t1));
    assert_eq!(g.text_count(), 1);
    assert!(g.get_text(t1).is_none());
    assert!(g.get_text(t2).is_some());

    // Try to remove again (should fail)
    assert!(!g.remove_text(t1));

    // Remove non-existent
    assert!(!g.remove_text(999));
}

#[test]
fn test_set_text_properties() {
    let mut g = new_texts();

    let text_id = g.add_text("Test", 0.0, 0.0);

    // Set content
    assert!(g.set_text_content(text_id, "Updated"));
    assert_eq!(g.get_text(text_id).unwrap().content, "Updated");

    // Set position
    assert!(g.set_text_position(text_id, 50.0, 75.0));
    let pos = &g.get_text(text_id).unwrap().position;
    assert_eq!(pos.x, 50.0);
    assert_eq!(pos.y, 75.0);

    // Set rotation
    assert!(g.set_text_rotation(text_id, std::f32::consts::PI / 4.0));
    assert!((g.get_text(text_id).unwrap().rotation - std::f32::consts::PI / 4.0).abs() < 0.0001);
}

#[test]
fn test_set_text_font() {
    let mut g = new_texts();

    let text_id = g.add_text("Test", 0.0, 0.0);

    // Set font
    assert!(g.set_text_font(text_id, "Arial", 24.0));
    let style = &g.get_text(text_id).unwrap().style;
    assert_eq!(style.font_family, "Arial");
    assert_eq!(style.font_size, 24.0);

    // Set weight
    assert!(g.set_text_font_weight(text_id, 700));
    assert_eq!(g.get_text(text_id).unwrap().style.font_weight, 700);

    // Weight clamping
    assert!(g.set_text_font_weight(text_id, 1000));
    assert_eq!(g.get_text(text_id).unwrap().style.font_weight, 900);
}

#[test]
fn test_set_text_colors() {
    let mut g = new_texts();

    let text_id = g.add_text("Test", 0.0, 0.0);

    // Set fill color
    assert!(g.set_text_fill_color(text_id, 255, 0, 0, 255));
    let fill = g.get_text(text_id).unwrap().style.fill_color;
    assert!(fill.is_some());
    let fill = fill.unwrap();
    assert_eq!(fill.r, 255);
    assert_eq!(fill.g, 0);
    assert_eq!(fill.b, 0);
    assert_eq!(fill.a, 255);

    // Clear fill color
    assert!(g.clear_text_fill_color(text_id));
    assert!(g.get_text(text_id).unwrap().style.fill_color.is_none());

    // Set stroke
    assert!(g.set_text_stroke_color(text_id, 0, 0, 255, 128));
    assert!(g.set_text_stroke_width(text_id, 2.0));
    let style = &g.get_text(text_id).unwrap().style;
    assert!(style.stroke_color.is_some());
    assert_eq!(style.stroke_width, 2.0);
}

#[test]
fn test_convert_text_types() {
    let mut g = new_texts();

    let text_id = g.add_text("Test", 0.0, 0.0);

    // Convert to box
    assert!(g.convert_text_to_box(text_id, 200.0, 100.0));

    // Convert back to label
    assert!(g.convert_text_to_label(text_id));
}

#[test]
fn test_invalid_text_operations() {
    let mut g = new_texts();

    // Operations on non-existent text
    assert!(!g.set_text_content(999, "test"));
    assert!(!g.set_text_position(999, 0.0, 0.0));
    assert!(!g.set_text_rotation(999, 0.0));
    assert!(!g.set_text_font(999, "Arial", 12.0));
    assert!(!g.remove_text(999));
    assert!(g.get_text(999).is_none());
}

#[test]
fn new_text_starts_from_the_default_style() {
    let mut g = new_texts();
    let id = g.add_text("Hi", 1.0, 2.0);
    let t = g.get_text(id).unwrap();
    assert_eq!(t.id, id);
    assert_eq!(t.rotation, 0.0);
    assert_eq!(t.align, TextAlign::Left);
    assert!(matches!(t.text_type, TextType::Label));
    assert_eq!(t.style.font_family, "sans-serif");
    assert_eq!(t.style.font_size, 16.0);
    assert_eq!(t.style.font_weight, 400);
    assert_eq!(t.style.font_style, FontStyle::Normal);
    let fill = t.style.fill_color.unwrap();
    assert_eq!((fill.r, fill.g, fill.b, fill.a), (0, 0, 0, 255));
    assert!(t.style.stroke_color.is_none());
    assert_eq!(t.style.line_height, 1.2);
}

#[test]
fn removed_text_ids_are_not_reused() {
    let mut g = new_texts();
    let a = g.add_text("a", 0.0, 0.0);
    let b = g.add_text("b", 0.0, 0.0);
    assert!(g.remove_text(b));
    let c = g.add_text("c", 0.0, 0.0);
    assert_eq!((a, b, c), (0, 1, 2));
    assert_eq!(g.get_text_ids(), vec![0, 2]);
    assert_eq!(g.text_count(), 2);
    assert!(g.get_text(b).is_none());
    assert_eq!(g.get_text(c).unwrap().content, "c");
}

#[test]
fn box_settings_apply_to_boxes_only() {
    let mut g = new_texts();
    let label = g.add_text("label", 0.0, 0.0);
    let bx = g.add_text_box("box", 0.0, 0.0, 30.0, 40.0);
    match &g.get_text(bx).unwrap().text_type {
        TextType::Box { width, height, vertical_align, overflow } => {
            assert_eq!((*width, *height), (30.0, 40.0));
            assert_eq!(*vertical_align, VerticalAlign::Top);
            assert_eq!(*overflow, TextOverflow::Clip);
        }
        _ => panic!("expected a box"),
    }
    assert!(!g.set_text_box_size(label, 1.0, 2.0));
    assert!(!g.set_text_box_vertical_align(label, VerticalAlign::Bottom));
    assert!(!g.set_text_box_overflow(label, TextOverflow::Visible));
    assert!(g.set_text_box_size(bx, 5.0, 6.0));
    assert!(g.set_text_box_vertical_align(bx, VerticalAlign::Middle));
    assert!(g.set_text_box_overflow(bx, TextOverflow::Ellipsis));
    match &g.get_text(bx).unwrap().text_type {
        TextType::Box { width, height, vertical_align, overflow } => {
            assert_eq!((*width, *height), (5.0, 6.0));
            assert_eq!(*vertical_align, VerticalAlign::Middle);
            assert_eq!(*overflow, TextOverflow::Ellipsis);
        }
        _ => panic!("expected a box"),
    }
    assert!(matches!(g.get_text(label).unwrap().text_type, TextType::Label));
}

#[test]
fn text_on_path_checks_its_edges() {
    let graph = graph_with_edges(2);
    let mut g = new_texts();
    let t = g.add_text("t", 0.0, 0.0);
    assert!(!g.convert_text_to_on_path(t, vec![0, 7], 0.5, &graph));
    assert!(matches!(g.get_text(t).unwrap().text_type, TextType::Label));
    assert!(!g.set_text_path_offset(t, 0.25));
    assert!(g.convert_text_to_on_path(t, vec![0, 1], 0.5, &graph));
    assert!(g.set_text_path_offset(t, 0.25));
    assert!(!g.set_text_path_edges(t, vec![9], &graph));
    assert!(g.set_text_path_edges(t, vec![1], &graph));
    match &g.get_text(t).unwrap().text_type {
        TextType::OnPath { edge_ids, start_offset } => {
            assert_eq!(edge_ids, &vec![1]);
            assert_eq!(*start_offset, 0.25);
        }
        _ => panic!("expected text on a path"),
    }
    let p = g.add_text_on_path("p", vec![0]);
    match &g.get_text(p).unwrap().text_type {
        TextType::OnPath { edge_ids, start_offset } => {
            assert_eq!(edge_ids, &vec![0]);
            assert_eq!(*start_offset, 0.0);
        }
        _ => panic!("expected text on a path"),
    }
}

#[test]
fn text_replies_check_in_order() {
    let graph = graph_with_edges(1);
    let mut g = new_texts();
    let t = g.add_text("t", 0.0, 0.0);

    let r = g.set_text_align_res(5, 1);
    assert_eq!(error_code(&r).as_deref(), Some("invalid_id"));
    if let Reply::Failure(e) = &r {
        assert_eq!(e.message, "invalid text id");
        let data = e.data.as_ref().unwrap();
        assert_eq!(data[0].0, "kind");
        assert!(matches!(&data[0].1, DataValue::Text(k) if k == "text"));
        assert!(matches!(&data[1].1, DataValue::Number(5)));
    }
    assert_eq!(error_code(&g.set_text_align_res(t, 3)).as_deref(), Some("invalid_align"));
    assert!(matches!(g.set_text_align_res(t, 2), Reply::Success(true)));
    assert_eq!(g.get_text(t).unwrap().align, TextAlign::Right);

    assert_eq!(error_code(&g.set_text_font_weight_res(t, 99)).as_deref(), Some("invalid_weight"));
    assert_eq!(error_code(&g.set_text_font_weight_res(t, 901)).as_deref(), Some("invalid_weight"));
    assert!(matches!(g.set_text_font_weight_res(t, 100), Reply::Success(true)));
    assert_eq!(g.get_text(t).unwrap().style.font_weight, 100);

    assert_eq!(error_code(&g.set_text_font_style_res(t, 9)).as_deref(), Some("invalid_style"));
    assert!(matches!(g.set_text_font_style_res(t, 1), Reply::Success(true)));
    assert_eq!(g.get_text(t).unwrap().style.font_style, FontStyle::Italic);

    // Not a box: the call succeeds and reports that nothing changed.
    assert!(matches!(g.set_text_box_overflow_res(t, 1), Reply::Success(false)));
    assert_eq!(error_code(&g.set_text_box_overflow_res(t, 3)).as_deref(), Some("invalid_overflow"));
    assert_eq!(error_code(&g.set_text_box_vertical_align_res(t, 3)).as_deref(), Some("invalid_align"));

    assert_eq!(error_code(&g.convert_text_to_on_path_res(8, vec![4], 0.0, false, &graph)).as_deref(), Some("invalid_id"));
    let r = g.convert_text_to_on_path_res(t, vec![0, 4], 0.0, false, &graph);
    if let Reply::Failure(e) = &r {
        assert_eq!(e.message, "invalid edge id");
    } else {
        panic!("expected an error");
    }
    let r = g.convert_text_to_on_path_res(t, vec![0], 0.0, false, &graph);
    if let Reply::Failure(e) = &r {
        assert_eq!(e.code, "non_finite");
        assert_eq!(e.message, "parameter 'start_offset' must be finite");
    } else {
        panic!("expected an error");
    }
    assert!(matches!(g.convert_text_to_on_path_res(t, vec![0], 0.0, true, &graph), Reply::Success(true)));

    assert_eq!(error_code(&g.add_text_on_path_res("x", vec![0, 3], &graph)).as_deref(), Some("invalid_id"));
    assert_eq!(g.text_count(), 1);
    assert!(matches!(g.add_text_on_path_res("x", vec![0], &graph), Reply::Success(1)));

    assert!(matches!(g.remove_text_res(1), Reply::Success(true)));
    assert_eq!(error_code(&g.remove_text_res(1)).as_deref(), Some("invalid_id"));
    assert_eq!(error_code(&g.get_text_res(1)).as_deref(), Some("invalid_id"));
    assert!(matches!(g.get_text_res(t), Reply::Success(_)));
    assert!(matches!(g.set_text_content_res(t, "new"), Reply::Success(true)));
    assert_eq!(g.get_text(t).unwrap().content, "new");
    assert!(matches!(g.set_text_fill_color_res(t, 1, 2, 3, 4), Reply::Success(true)));
    assert!(matches!(g.set_text_stroke_color_res(t, 5, 6, 7, 8), Reply::Success(true)));
    assert!(matches!(g.convert_text_to_label_res(t), Reply::Success(true)));
    assert_eq!(error_code(&g.convert_text_to_label_res(77)).as_deref(), Some("invalid_id"));
}

#[test]
fn codes_select_text_settings() {
    assert_eq!(TextAlign::from_code(1), Some(TextAlign::Center));
    assert_eq!(TextAlign::from_code(3), None);
    assert_eq!(FontStyle::from_code(2), Some(FontStyle::Oblique));
    assert_eq!(VerticalAlign::from_code(0), Some(VerticalAlign::Top));
    assert_eq!(TextOverflow::from_code(2), Some(TextOverflow::Visible));
    assert_eq!(TextOverflow::from_code(200), None);
}
