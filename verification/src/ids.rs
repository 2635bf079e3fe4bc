//! Validation of user identifiers.
//!
//! State keys of membership events are only meaningful when they are valid
//! user ids; the grammar (sigil, localpart, server name) is the outside
//! crate's, so the library speaks of acceptance only through the name
//! [`user_id_ok`].

use vstd::prelude::*;

verus! {

/// Whether the outside parser accepts the string as a user id.
pub uninterp spec fn user_id_ok(s: Seq<char>) -> bool;

/// Relies on ruma's UserId::parse: acceptance depends on the characters
/// alone, and every accepted id begins with the '@' sigil.
#[verifier::external_body]
pub(crate) fn is_valid_user_id(s: &String) -> (r: bool)
    ensures
        r == user_id_ok(s@),
        r ==> s@.len() > 0 && s@[0] == '@',
{
    ruma::UserId::parse(s.as_str()).is_ok()
}

} // verus!
