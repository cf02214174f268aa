use vstd::prelude::*;
use crate::errors::StoreError;

verus! {

/// What standard-alphabet, padding-required base64 decoding of `s` yields:
/// the decoded bytes, or nothing when `s` is not valid base64.
pub uninterp spec fn b64_decoded(s: Seq<char>) -> Option<Seq<u8>>;

/// Relies on base64's `Engine::decode` with the `STANDARD` engine (standard
/// alphabet, canonical padding required): whether it succeeds and what bytes
/// it returns are a function of the input text alone.
#[verifier::external_body]
fn decode_standard(s: &str) -> (r: Option<Vec<u8>>)
    ensures
        match r {
            Some(v) => b64_decoded(s@) == Some(v@),
            None => b64_decoded(s@) is None,
        },
{
    base64::Engine::decode(&base64::engine::general_purpose::STANDARD, s).ok()
}

/// Decode a base64 audio payload (standard alphabet, padding required);
/// `Err(StoreError::Decode)` exactly when the text is not valid base64.
pub fn decode_base64(s: &str) -> (r: Result<Vec<u8>, StoreError>)
    ensures
        match r {
            Ok(v) => b64_decoded(s@) == Some(v@),
            Err(e) => b64_decoded(s@) is None && e is Decode,
        },
{
    match decode_standard(s) {
        Some(v) => Ok(v),
        None => Err(StoreError::Decode),
    }
}

} // verus!
