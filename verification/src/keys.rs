//! Decoding of the engine's key material.
//!
//! Keys arrive as base64 strings under the standard alphabet and must decode
//! to exactly 32 bytes. The base64 alphabet itself is handled by an outside
//! crate; the length rule and the error classification are verified here.

use vstd::prelude::*;
use crate::EngineError;

verus! {

/// What base64 decoding under the standard alphabet yields for a string:
/// the decoded bytes, or nothing when the string is not valid base64.
pub uninterp spec fn b64_decoding(s: Seq<char>) -> Option<Seq<u8>>;

/// The base64 string under the standard alphabet that encodes a byte
/// sequence.
pub uninterp spec fn b64_encoding(bytes: Seq<u8>) -> Seq<char>;

/// Relies on base64's `general_purpose::STANDARD` engine `decode`: the result
/// is a function of the input string alone.
#[verifier::external_body]
fn b64_decode(s: &str) -> (r: Option<Vec<u8>>)
    ensures
        match r {
            Some(v) => b64_decoding(s@) == Some(v@),
            None => b64_decoding(s@) is None,
        },
{
    base64::Engine::decode(&base64::engine::general_purpose::STANDARD, s).ok()
}

/// Relies on base64's `general_purpose::STANDARD` engine `encode`; the crate
/// documents that `decode` inverts `encode`.
#[verifier::external_body]
fn b64_encode(bytes: &Vec<u8>) -> (r: String)
    ensures
        r@ == b64_encoding(bytes@),
        b64_decoding(r@) == Some(bytes@),
{
    base64::Engine::encode(&base64::engine::general_purpose::STANDARD, bytes)
}

/// What decoding a key string yields: the 32 decoded bytes, or the error
/// that classifies the failure.
pub open spec fn key_decoding(s: Seq<char>) -> Result<Seq<u8>, EngineError> {
    match b64_decoding(s) {
        Some(b) => if b.len() == 32 {
            Ok(b)
        } else {
            Err(EngineError::BadKeyLength)
        },
        None => Err(EngineError::BadKeyEncoding),
    }
}

/// Decodes a base64 key string into its 32 bytes. Fails with
/// `BadKeyEncoding` exactly when the string is not valid base64 under the
/// standard alphabet, and with `BadKeyLength` exactly when it decodes to a
/// length other than 32.
pub fn decode_key(key: &str) -> (r: Result<Vec<u8>, EngineError>)
    ensures
        match r {
            Ok(v) => key_decoding(key@) == Ok::<Seq<u8>, EngineError>(v@) && v@.len() == 32,
            Err(e) => key_decoding(key@) == Err::<Seq<u8>, EngineError>(e),
        },
{
    match b64_decode(key) {
        Some(v) => {
            if v.len() == 32 {
                Ok(v)
            } else {
                Err(EngineError::BadKeyLength)
            }
        },
        None => Err(EngineError::BadKeyEncoding),
    }
}

/// Law: any 32-byte key written as base64 by the standard alphabet decodes
/// losslessly through the engine's decoder, and the decoder owes success on
/// exactly such strings.
pub fn key_round_trip(key: &Vec<u8>) -> (r: Result<Vec<u8>, EngineError>)
    requires
        key@.len() == 32,
    ensures
        r is Ok,
        r matches Ok(v) ==> v@ == key@,
{
    let written = b64_encode(key);
    decode_key(written.as_str())
}

} // verus!
