use vstd::prelude::*;

verus! {

/// Generates a fresh identity token.
///
/// Relies on `uuid_b64::UuidB64::new`, which draws a random version-four
/// UUID, and `UuidB64::to_buf`, which writes its sixteen bytes as URL-safe
/// base64 without padding: twenty-two characters, none of them a newline
/// or a colon.  The token is random, so nothing relates two calls.
#[verifier::external_body]
pub(crate) fn generate_id() -> (r: String)
    ensures
        r@.len() == 22,
        forall|i: int| 0 <= i < r@.len() ==> #[trigger] r@[i] != '\n' && r@[i] != ':',
{
    let id = uuid_b64::UuidB64::new();
    let mut buf = String::new();
    id.to_buf(&mut buf);
    buf
}

} // verus!
