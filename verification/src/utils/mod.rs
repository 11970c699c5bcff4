//! Small helpers shared by the parser and the data types.

pub mod bound;
pub mod bytes;
pub mod clock;
pub mod keymap;
pub mod numeric;
pub mod options;

use vstd::prelude::*;

pub use self::numeric::{spec_atoi, u8_to_i64};

verus! {

/// Decodes `data` as UTF-8 text; the error is the text of the decoder's
/// error when it is not valid UTF-8.
///
/// Calls `std::str::from_utf8` and copies the text out. Its documentation
/// states that the call succeeds exactly when the bytes are valid UTF-8, and a
/// `str` holds the characters its bytes encode; this wrapper claims that. Of
/// the error's text nothing is claimed.
#[verifier::external_body]
pub(crate) fn utf8_to_string(data: &[u8]) -> (r: Result<String, String>)
    ensures
        r is Ok <==> vstd::utf8::valid_utf8(data@),
        r matches Ok(s) ==> s@ == vstd::utf8::decode_utf8(data@),
{
    match std::str::from_utf8(data) {
        Ok(s) => Ok(s.to_string()),
        Err(e) => Err(e.to_string()),
    }
}

/// Turns protocol bytes into a `String`.
///
/// The bytes must be valid UTF-8: a frame whose text is not is refused by the
/// parser before it gets here.
pub fn u8_to_string(data: &[u8]) -> (r: String)
    requires
        vstd::utf8::valid_utf8(data@),
    ensures
        r@ == vstd::utf8::decode_utf8(data@),
{
    match utf8_to_string(data) {
        Ok(s) => s,
        Err(_) => {
            proof {
                assert(false);
            }
            String::new()
        },
    }
}

} // verus!
