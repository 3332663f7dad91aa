//! Random lock ids.

use vstd::prelude::*;

verus! {

/// A lower-case hexadecimal digit.
pub open spec fn hex_digit(c: char) -> bool {
    '0' <= c <= '9' || 'a' <= c <= 'f'
}

/// The hyphenated text of a random (version 4) UUID.
pub open spec fn random_id_text(s: Seq<char>) -> bool {
    &&& s.len() == 36
    &&& forall|i: int|
        0 <= i < 36 ==> if i == 8 || i == 13 || i == 18 || i == 23 {
            #[trigger] s[i] == '-'
        } else {
            hex_digit(s[i])
        }
    &&& s[14] == '4'
    &&& s[19] == '8' || s[19] == '9' || s[19] == 'a' || s[19] == 'b'
}

/// A random id.
///
/// Calls `uuid::Uuid::new_v4` and renders it with its `Display`. Claimed is the
/// shape of the text only: hyphenated lower-case hexadecimal with the version
/// and variant digits of a random UUID. Which id comes is left open.
#[verifier::external_body]
pub(crate) fn random_id() -> (r: String)
    ensures
        random_id_text(r@),
{
    uuid::Uuid::new_v4().to_string()
}

} // verus!
