use contour::errors::{
    err, invalid_id, invalid_kind, invalid_mode, non_finite, not_cubic, not_polyline, ok, ApiError,
    DataValue, Reply,
};

fn error_of(r: Reply<u32>) -> ApiError {
    match r {
        Reply::Failure(e) => e,
        Reply::Success(_) => panic!("expected an error"),
    }
}

fn text(v: &DataValue) -> &str {
    match v {
        DataValue::Text(t) => t.as_str(),
        DataValue::Number(_) => panic!("expected text"),
    }
}

fn number(v: &DataValue) -> u32 {
    match v {
        DataValue::Number(n) => *n,
        DataValue::Text(_) => panic!("expected a number"),
    }
}

#[test]
fn ok_wraps_the_value() {
    match ok(5u32) {
        Reply::Success(v) => assert_eq!(v, 5),
        Reply::Failure(_) => panic!("expected success"),
    }
}

#[test]
fn err_keeps_code_message_and_data() {
    let e = error_of(err("invalid_edge", "edge endpoints cannot be the same node".to_string(), None));
    assert_eq!(e.code, "invalid_edge");
    assert_eq!(e.message, "edge endpoints cannot be the same node");
    assert!(e.data.is_none());
}

#[test]
fn non_finite_names_the_parameter() {
    let e = error_of(non_finite("x"));
    assert_eq!(e.code, "non_finite");
    assert_eq!(e.message, "parameter 'x' must be finite");
    let d = e.data.unwrap();
    assert_eq!(d.len(), 1);
    assert_eq!(d[0].0, "param");
    assert_eq!(text(&d[0].1), "x");
}

#[test]
fn invalid_id_names_kind_and_id() {
    let e = error_of(invalid_id("edge", 42));
    assert_eq!(e.code, "invalid_id");
    assert_eq!(e.message, "invalid edge id");
    let d = e.data.unwrap();
    assert_eq!(d.len(), 2);
    assert_eq!(d[0].0, "kind");
    assert_eq!(text(&d[0].1), "edge");
    assert_eq!(d[1].0, "id");
    assert_eq!(number(&d[1].1), 42);
}

#[test]
fn invalid_mode_reports_the_code_given() {
    let e = error_of(invalid_mode(7));
    assert_eq!(e.code, "invalid_mode");
    assert_eq!(e.message, "mode must be 0:Free, 1:Mirrored, 2:Aligned");
    let d = e.data.unwrap();
    assert_eq!(d[0].0, "got");
    assert_eq!(number(&d[0].1), 7);
}

#[test]
fn kind_errors_carry_the_edge() {
    let e = error_of(not_cubic(3));
    assert_eq!(e.code, "not_cubic");
    assert_eq!(e.message, "edge is not cubic");
    let d = e.data.unwrap();
    assert_eq!(d[0].0, "edge");
    assert_eq!(number(&d[0].1), 3);

    let e = error_of(not_polyline(4));
    assert_eq!(e.code, "not_polyline");
    assert_eq!(e.message, "edge is not polyline");
    assert_eq!(number(&e.data.unwrap()[0].1), 4);

    let e = error_of(invalid_kind("custom", "message", 9));
    assert_eq!(e.code, "custom");
    assert_eq!(e.message, "message");
    assert_eq!(number(&e.data.unwrap()[0].1), 9);
}
