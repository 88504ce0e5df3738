//! The standard base64 alphabet with padding, as the `base64` crate implements it.

use vstd::prelude::*;

verus! {

#[verifier::external_type_specification]
#[verifier::external_body]
pub struct ExDecodeError(base64::DecodeError);

/// The bytes that the text `text` stands for in standard padded base64,
/// where `text` is given by its bytes; `None` where it is not valid base64.
pub uninterp spec fn base64_payload(text: Seq<u8>) -> Option<Seq<u8>>;

/// The standard padded base64 text of `data`.
pub uninterp spec fn base64_text(data: Seq<u8>) -> Seq<char>;

/// `Engine::decode` of `general_purpose::STANDARD`: succeeds exactly on the
/// texts that are valid base64 and then returns the bytes they stand for.
#[verifier::external_body]
pub(crate) fn decode_standard(text: &[u8]) -> (r: Result<Vec<u8>, base64::DecodeError>)
    ensures
        r is Ok <==> base64_payload(text@) is Some,
        r matches Ok(data) ==> base64_payload(text@) == Some(data@),
{
    base64::Engine::decode(&base64::engine::general_purpose::STANDARD, text)
}

/// `Engine::encode_string` of `general_purpose::STANDARD`, into an empty
/// string: returns the base64 text of `data`.
#[verifier::external_body]
pub(crate) fn encode_standard(data: &[u8]) -> (r: String)
    ensures
        r@ == base64_text(data@),
{
    let mut text = String::new();
    base64::Engine::encode_string(&base64::engine::general_purpose::STANDARD, data, &mut text);
    text
}

} // verus!
