//! Reading a whole text, bare or inside an envelope.

use crate::base64_codec::decode_standard;
use crate::dict::well_formed;
use crate::grammar::{denoted, document, COLON};
use crate::grammar_laws::lemma_denoted_well_formed;
use crate::parser::ValueParser;
use crate::value::DValue;
use vstd::prelude::*;
use vstd::slice::*;
use vstd::string::*;
use vstd::utf8::*;

verus! {

/// `String::from_utf8`: the text that `bytes` hold in UTF-8, where they hold
/// one.
#[verifier::external_body]
pub(crate) fn text_of_bytes(bytes: Vec<u8>) -> (r: Option<String>)
    ensures
        r is Some <==> valid_utf8(bytes@),
        r matches Some(text) ==> text@ == decode_utf8(bytes@),
{
    String::from_utf8(bytes).ok()
}

impl DValue {
    /// The value that the whole of `text` is the notation of; the absent
    /// value where `text` is the notation of none.
    pub fn from_document(text: &str) -> (r: DValue)
        ensures
            r@ == document(text.spec_bytes()),
            well_formed(r@),
    {
        proof {
            lemma_denoted_well_formed(text.spec_bytes());
        }
        match ValueParser::parse_at(text, 0) {
            Some((value, end)) => {
                if end == text.as_bytes().len() {
                    value
                } else {
                    DValue::Null
                }
            },
            None => DValue::Null,
        }
    }

    /// The value that `data` denotes. A text of the form `b:<base64>:` is an
    /// envelope and denotes what the text inside it denotes. The result is
    /// the absent value where nothing is denoted.
    pub fn from(data: &str) -> (r: DValue)
        ensures
            r@ == denoted(data.spec_bytes()),
            well_formed(r@),
    {
        proof {
            lemma_denoted_well_formed(data.spec_bytes());
        }
        broadcast use decode_utf8_encode_utf8;

        let bytes = data.as_bytes();
        let len = bytes.len();
        if len >= 3 && bytes[0] == 0x62 && bytes[1] == COLON && bytes[len - 1] == COLON {
            match decode_standard(slice_subrange(bytes, 2, len - 1)) {
                Ok(inner) => match text_of_bytes(inner) {
                    Some(text) => Self::from_document(text.as_str()),
                    None => DValue::Null,
                },
                Err(_) => DValue::Null,
            }
        } else {
            Self::from_document(data)
        }
    }
}

} // verus!
