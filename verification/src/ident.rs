//! Random identifiers.

use vstd::prelude::*;
use vstd::string::*;

verus! {

/// A lowercase hexadecimal digit.
pub open spec fn lower_hex(c: char) -> bool {
    ('0' <= c <= '9') || ('a' <= c <= 'f')
}

/// The form of a random identifier: 36 characters, hyphens after the eighth, the twelfth, the
/// sixteenth and the twentieth digit, and lowercase hexadecimal digits elsewhere, of which the
/// thirteenth says that it is random and the seventeenth how it is laid out.
pub open spec fn is_uuid(s: Seq<char>) -> bool {
    &&& s.len() == 36
    &&& forall|i: int|
        0 <= i < 36 ==> if i == 8 || i == 13 || i == 18 || i == 23 {
            #[trigger] s[i] == '-'
        } else {
            lower_hex(s[i])
        }
    &&& s[14] == '4'
    &&& s[19] == '8' || s[19] == '9' || s[19] == 'a' || s[19] == 'b'
}

/// `uuid::Uuid::new_v4` and its `to_string`: a random identifier, of which only the form can
/// be said.
#[verifier::external_body]
pub(crate) fn new_uuid() -> (s: String)
    ensures
        is_uuid(s@),
{
    uuid::Uuid::new_v4().to_string()
}

} // verus!
