//! The reply envelope of the scripting API: a call either succeeds with a
//! value or fails with a structured error made of a machine-readable code,
//! a message and optional data fields.

use vstd::prelude::*;

verus! {

/// A value in the data of an error.
pub enum DataValue {
    Text(String),
    Number(u32),
}

/// A structured error: code, message and, optionally, named data fields
/// in the order they were set.
pub struct ApiError {
    pub code: String,
    pub message: String,
    pub data: Option<Vec<(String, DataValue)>>,
}

/// The reply to an API call.
pub enum Reply<V> {
    Success(V),
    Failure(ApiError),
}

/// The reply `r` is an error with code `code`, message `message` and data
/// fields named `names`, in this order.
pub open spec fn is_error_reply<V>(r: Reply<V>, code: Seq<char>, message: Seq<char>, names: Seq<Seq<char>>) -> bool {
    &&& r is Failure
    &&& (r->Failure_0).code@ == code
    &&& (r->Failure_0).message@ == message
    &&& (r->Failure_0).data is Some
    &&& ((r->Failure_0).data->0)@.len() == names.len()
    &&& forall|i: int| 0 <= i < names.len() ==> (#[trigger] ((r->Failure_0).data->0)@[i]).0@ == names[i]
}

/// The text held by data field `i` of the error reply `r`, if it holds text.
pub open spec fn text_field<V>(r: Reply<V>, i: int) -> Option<Seq<char>> {
    match ((r->Failure_0).data->0)@[i].1 {
        DataValue::Text(t) => Some(t@),
        DataValue::Number(_) => None,
    }
}

/// The number held by data field `i` of the error reply `r`, if it holds one.
pub open spec fn number_field<V>(r: Reply<V>, i: int) -> Option<u32> {
    match ((r->Failure_0).data->0)@[i].1 {
        DataValue::Text(_) => None,
        DataValue::Number(n) => Some(n),
    }
}

/// The reply `r` says that no item of kind `kind` has id `id`.
pub open spec fn invalid_id_reply<V>(r: Reply<V>, kind: Seq<char>, id: u32) -> bool {
    &&& is_error_reply(r, "invalid_id"@, "invalid "@ + kind + " id"@, seq!["kind"@, "id"@])
    &&& text_field(r, 0) == Some(kind)
    &&& number_field(r, 1) == Some(id)
}

/// The reply `r` is an error with code `code`, message `message` and no data.
pub open spec fn plain_error_reply<V>(r: Reply<V>, code: Seq<char>, message: Seq<char>) -> bool {
    &&& r is Failure
    &&& (r->Failure_0).code@ == code
    &&& (r->Failure_0).message@ == message
    &&& (r->Failure_0).data is None
}

/// A successful reply carrying `v`.
pub fn ok<V>(v: V) -> (r: Reply<V>)
    ensures
        r == Reply::<V>::Success(v),
{
    Reply::Success(v)
}

/// An error reply with the given code, message and data.
pub fn err<V>(code: &str, message: String, data: Option<Vec<(String, DataValue)>>) -> (r: Reply<V>)
    ensures
        r is Failure,
        (r->Failure_0).code@ == code@,
        (r->Failure_0).message@ == message@,
        (r->Failure_0).data == data,
{
    Reply::Failure(ApiError { code: String::from_str(code), message, data })
}

/// One data field named `name` holding `value`.
fn field(name: &str, value: DataValue) -> (r: (String, DataValue))
    ensures
        r.0@ == name@,
        r.1 == value,
{
    (String::from_str(name), value)
}

/// A parameter that had to be finite was not: code `non_finite`.
pub fn non_finite<V>(param: &str) -> (r: Reply<V>)
    ensures
        is_error_reply(r, "non_finite"@, "parameter '"@ + param@ + "' must be finite"@, seq!["param"@]),
        text_field(r, 0) == Some(param@),
{
    let mut message = String::from_str("parameter '");
    message.append(param);
    message.append("' must be finite");
    let mut data: Vec<(String, DataValue)> = Vec::new();
    data.push(field("param", DataValue::Text(String::from_str(param))));
    err("non_finite", message, Some(data))
}

/// No item of kind `kind` has id `id`: code `invalid_id`.
pub fn invalid_id<V>(kind: &str, id: u32) -> (r: Reply<V>)
    ensures
        invalid_id_reply(r, kind@, id),
{
    let mut message = String::from_str("invalid ");
    message.append(kind);
    message.append(" id");
    let mut data: Vec<(String, DataValue)> = Vec::new();
    data.push(field("kind", DataValue::Text(String::from_str(kind))));
    data.push(field("id", DataValue::Number(id)));
    err("invalid_id", message, Some(data))
}

/// A handle mode code other than 0, 1 or 2: code `invalid_mode`.
pub fn invalid_mode<V>(got: u8) -> (r: Reply<V>)
    ensures
        is_error_reply(r, "invalid_mode"@, "mode must be 0:Free, 1:Mirrored, 2:Aligned"@, seq!["got"@]),
        number_field(r, 0) == Some(got as u32),
{
    let mut data: Vec<(String, DataValue)> = Vec::new();
    data.push(field("got", DataValue::Number(got as u32)));
    err("invalid_mode", String::from_str("mode must be 0:Free, 1:Mirrored, 2:Aligned"), Some(data))
}

/// An edge of the wrong kind: the given code and message, with the edge id.
pub fn invalid_kind<V>(code: &str, msg: &str, edge: u32) -> (r: Reply<V>)
    ensures
        is_error_reply(r, code@, msg@, seq!["edge"@]),
        number_field(r, 0) == Some(edge),
{
    let mut data: Vec<(String, DataValue)> = Vec::new();
    data.push(field("edge", DataValue::Number(edge)));
    err(code, String::from_str(msg), Some(data))
}

/// The edge is not a cubic: code `not_cubic`.
pub fn not_cubic<V>(edge: u32) -> (r: Reply<V>)
    ensures
        is_error_reply(r, "not_cubic"@, "edge is not cubic"@, seq!["edge"@]),
        number_field(r, 0) == Some(edge),
{
    invalid_kind("not_cubic", "edge is not cubic", edge)
}

/// The edge is not a polyline: code `not_polyline`.
pub fn not_polyline<V>(edge: u32) -> (r: Reply<V>)
    ensures
        is_error_reply(r, "not_polyline"@, "edge is not polyline"@, seq!["edge"@]),
        number_field(r, 0) == Some(edge),
{
    invalid_kind("not_polyline", "edge is not polyline", edge)
}

} // verus!
