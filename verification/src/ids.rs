//! Random identifiers.

use vstd::prelude::*;

verus! {

pub open spec fn is_lower_hex(c: char) -> bool {
    ('0' <= c && c <= '9') || ('a' <= c && c <= 'f')
}

/// The text of a random UUID: 36 characters, hyphens in four places and
/// lower-case hexadecimal digits elsewhere, with the version and the variant
/// where they belong.
pub open spec fn is_uuid_text(s: Seq<char>) -> bool {
    &&& s.len() == 36
    &&& forall|i: int|
        0 <= i < 36 ==> if i == 8 || i == 13 || i == 18 || i == 23 {
            #[trigger] s[i] == '-'
        } else {
            is_lower_hex(s[i])
        }
    &&& s[14] == '4'
    &&& s[19] == '8' || s[19] == '9' || s[19] == 'a' || s[19] == 'b'
}

/// Calls `uuid::Uuid::new_v4` and writes the result as text: hyphenated, in
/// lower case, with version 4 and the RFC variant. Which one comes is left to
/// chance.
#[verifier::external_body]
pub(crate) fn new_id() -> (r: String)
    ensures
        is_uuid_text(r@),
{
    uuid::Uuid::new_v4().to_string()
}

/// Calls `uuid::Uuid::new_v4` and hands out its 16 bytes. Nothing is stated of
/// them: which bytes come is left to chance.
#[verifier::external_body]
pub(crate) fn random_bytes() -> (r: [u8; 16]) {
    *uuid::Uuid::new_v4().as_bytes()
}

} // verus!
