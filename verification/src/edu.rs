//! Serialization of the outbound federation typing record.
//!
//! A local typing change is fanned out to other servers as a room-scoped
//! activity record `{room_id, user_id, typing}`.  The serializer is an
//! outside crate; the rest of the library speaks only of the name
//! [`typing_edu_bytes`] that its result is given here.

use vstd::prelude::*;

verus! {

/// The JSON bytes the outside serializer produces for a typing activity
/// record with the given room, user and flag.
pub uninterp spec fn typing_edu_bytes(room: Seq<char>, user: Seq<char>, typing: bool) -> Seq<u8>;

/// Relies on serde_json::to_vec: serializing a map of plain values is
/// deterministic, a function of the map's contents alone.
#[verifier::external_body]
pub(crate) fn typing_edu_json(room: &String, user: &String, typing: bool) -> (r: Vec<u8>)
    ensures
        r@ == typing_edu_bytes(room@, user@, typing),
{
    let mut content = serde_json::Map::new();
    content.insert("room_id".to_owned(), serde_json::Value::String(room.clone()));
    content.insert("user_id".to_owned(), serde_json::Value::String(user.clone()));
    content.insert("typing".to_owned(), serde_json::Value::Bool(typing));
    serde_json::to_vec(&serde_json::Value::Object(content)).unwrap_or_default()
}

} // verus!
