//! Fresh identifiers and timestamps.

use vstd::prelude::*;

verus! {

/// Whether `s` has the shape of a hyphenated lowercase UUID:
/// `xxxxxxxx-xxxx-xxxx-xxxx-xxxxxxxxxxxx` with each `x` a hex digit `0-9a-f`.
pub open spec fn is_uuid_text(s: Seq<char>) -> bool {
    &&& s.len() == 36
    &&& forall|i: int| 0 <= i < 36 ==> {
        let c = #[trigger] s[i];
        if i == 8 || i == 13 || i == 18 || i == 23 {
            c == '-'
        } else {
            ('0' <= c <= '9') || ('a' <= c <= 'f')
        }
    }
}

/// A new opaque id: calls `uuid::Uuid::new_v4` and formats it with
/// `to_string`, which writes the lowercase hyphenated form. The value is
/// random: the contract claims only its shape.
#[verifier::external_body]
pub fn new_id() -> (r: String)
    ensures
        is_uuid_text(r@),
{
    uuid::Uuid::new_v4().to_string()
}

/// The current UTC time in RFC 3339: calls `chrono::Utc::now` and
/// `to_rfc3339`. It depends on the clock; nothing is claimed of it.
#[verifier::external_body]
pub fn now_utc() -> (r: String) {
    chrono::Utc::now().to_rfc3339()
}

} // verus!
