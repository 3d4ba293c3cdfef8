//! Protocol messages as the router sees them: a JSON object classified by
//! its `id` and `method` fields, and its `id` rewritten on the way through.
use vstd::prelude::*;
use crate::session::MsgId;

verus! {

/// A request identifier as a mathematical value.
pub enum IdView {
    Num(int),
    Str(Seq<char>),
}

impl View for MsgId {
    type V = IdView;

    open spec fn view(&self) -> IdView {
        match self {
            MsgId::Num(n) => IdView::Num(*n as int),
            MsgId::Str(s) => IdView::Str(s@),
        }
    }
}

/// What serde_json reads from a payload: `None` when it is not a JSON object
/// (or its `id` is neither an `i64` nor a string); else its `id`, if any, and
/// whether it has a `method`.
pub uninterp spec fn json_fields(b: Seq<u8>) -> Option<(Option<IdView>, bool)>;

/// What serde_json writes for a payload whose `id` is set to `id`; `None`
/// when the payload is not a JSON object.
pub uninterp spec fn json_with_id(b: Seq<u8>, id: IdView) -> Option<Seq<u8>>;

pub open spec fn fields_view(f: Option<(Option<MsgId>, bool)>) -> Option<(Option<IdView>, bool)> {
    match f {
        Some((Some(id), m)) => Some((Some(id@), m)),
        Some((None, m)) => Some((None, m)),
        None => None,
    }
}

pub open spec fn bytes_view(b: Option<Vec<u8>>) -> Option<Seq<u8>> {
    match b {
        Some(v) => Some(v@),
        None => None,
    }
}

/// Relies on serde_json::from_slice into a serde_json::Value, read through
/// Value::as_object, Map::get and Map::contains_key: the `id` and whether a
/// `method` is present.
#[verifier::external_body]
fn read_fields(b: &[u8]) -> (r: Option<(Option<MsgId>, bool)>)
    ensures
        fields_view(r) == json_fields(b@),
{
    let v: serde_json::Value = serde_json::from_slice(b).ok()?;
    let obj = v.as_object()?;
    let id = match obj.get("id") {
        None => None,
        Some(serde_json::Value::Number(n)) => Some(MsgId::Num(n.as_i64()?)),
        Some(serde_json::Value::String(s)) => Some(MsgId::Str(s.clone())),
        Some(_) => return None,
    };
    Some((id, obj.contains_key("method")))
}

/// Relies on serde_json::from_slice, Map::insert and serde_json::to_vec:
/// the payload re-serialised with its `id` replaced.
#[verifier::external_body]
fn write_id(b: &[u8], id: &MsgId) -> (r: Option<Vec<u8>>)
    ensures
        bytes_view(r) == json_with_id(b@, id@),
{
    let mut v: serde_json::Value = serde_json::from_slice(b).ok()?;
    let new_id = match id {
        MsgId::Num(n) => serde_json::Value::from(*n),
        MsgId::Str(s) => serde_json::Value::from(s.as_str()),
    };
    v.as_object_mut()?.insert("id".to_owned(), new_id);
    serde_json::to_vec(&v).ok()
}

/// The class of a message.
pub enum Kind {
    /// An `id` and a `method`: answered by a response with the same `id`.
    Request(MsgId),
    /// An `id` and no `method`.
    Response(MsgId),
    /// A `method` and no `id`.
    Notification,
}

pub enum KindView {
    Request(IdView),
    Response(IdView),
    Notification,
}

impl View for Kind {
    type V = KindView;

    open spec fn view(&self) -> KindView {
        match self {
            Kind::Request(id) => KindView::Request(id@),
            Kind::Response(id) => KindView::Response(id@),
            Kind::Notification => KindView::Notification,
        }
    }
}

pub open spec fn kind_view(k: Option<Kind>) -> Option<KindView> {
    match k {
        Some(k) => Some(k@),
        None => None,
    }
}

/// The class that the fields of a message give; `None` for a message with
/// neither an `id` nor a `method`, or one that is not an object.
pub open spec fn kind_of(f: Option<(Option<IdView>, bool)>) -> Option<KindView> {
    match f {
        Some((Some(id), true)) => Some(KindView::Request(id)),
        Some((Some(id), false)) => Some(KindView::Response(id)),
        Some((None, true)) => Some(KindView::Notification),
        _ => None,
    }
}

/// Classifies a message from its `id` and whether it has a `method`.
pub fn classify_fields(f: Option<(Option<MsgId>, bool)>) -> (r: Option<Kind>)
    ensures
        kind_view(r) == kind_of(fields_view(f)),
{
    match f {
        Some((Some(id), true)) => Some(Kind::Request(id)),
        Some((Some(id), false)) => Some(Kind::Response(id)),
        Some((None, true)) => Some(Kind::Notification),
        _ => None,
    }
}

/// Classifies a payload.
pub fn classify(payload: &[u8]) -> (r: Option<Kind>)
    ensures
        kind_view(r) == kind_of(json_fields(payload@)),
{
    classify_fields(read_fields(payload))
}

/// The payload with its `id` replaced; `None` when it is not a JSON object.
pub fn with_id(payload: &[u8], id: &MsgId) -> (r: Option<Vec<u8>>)
    ensures
        bytes_view(r) == json_with_id(payload@, id@),
{
    write_id(payload, id)
}

} // verus!
