//! Memory ids are UUIDs in their textual form.
use vstd::prelude::*;

verus! {

/// The 128-bit value of the UUID that `uuid::Uuid::parse_str` reads from a
/// string with characters `s`, or `None` where it reports an error. It
/// depends on the characters alone.
pub uninterp spec fn uuid_of(s: Seq<char>) -> Option<u128>;

/// `uuid::Uuid::parse_str(s)`, as the UUID's 128-bit value. The contract
/// claims only that the result is what the parser gives for these characters;
/// which formats it accepts is not restated.
#[verifier::external_body]
pub(crate) fn parse_uuid(s: &str) -> (r: Option<u128>)
    ensures
        r == uuid_of(s@),
{
    match uuid::Uuid::parse_str(s) {
        Ok(u) => Some(u.as_u128()),
        Err(_) => None,
    }
}

} // verus!
