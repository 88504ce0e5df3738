//! The byte payload of a value.

use crate::base64_codec::{base64_payload, base64_text, decode_standard, encode_standard};
use vstd::prelude::*;
use vstd::string::*;
use vstd::utf8::*;

verus! {

/// An owned buffer of bytes.
#[derive(Debug)]
pub struct Binary {
    data: Vec<u8>,
}

/// Why a payload could not be built.
#[derive(Debug, Clone, Copy, PartialEq, Eq)]
pub enum BinaryError {
    /// The text is not valid base64.
    Decode,
}

impl BinaryError {
    /// The message that goes with the error.
    pub fn message(&self) -> (r: String)
        ensures
            r@ == "Failed to decode base64 string"@,
    {
        String::from_str("Failed to decode base64 string")
    }
}

impl View for Binary {
    type V = Seq<u8>;

    closed spec fn view(&self) -> Seq<u8> {
        self.data@
    }
}

/// The textual form of a payload: its base64 text inside `binary!(` and `)`.
pub open spec fn binary_text(data: Seq<u8>) -> Seq<char> {
    "binary!("@ + base64_text(data) + ")"@
}

impl Binary {
    /// A payload that holds `data`.
    pub fn new(data: Vec<u8>) -> (r: Self)
        ensures
            r@ == data@,
    {
        Binary { data }
    }

    /// The payload that the base64 text `value` stands for.
    pub fn from_b64(value: String) -> (r: Result<Self, BinaryError>)
        ensures
            match base64_payload(encode_utf8(value@)) {
                Some(data) => r matches Ok(b) && b@ == data,
                None => r == Err::<Self, BinaryError>(BinaryError::Decode),
            },
    {
        Self::from_b64_bytes(value.as_str().as_bytes())
    }

    /// The payload that the base64 text with the bytes `text` stands for.
    pub fn from_b64_bytes(text: &[u8]) -> (r: Result<Self, BinaryError>)
        ensures
            match base64_payload(text@) {
                Some(data) => r matches Ok(b) && b@ == data,
                None => r == Err::<Self, BinaryError>(BinaryError::Decode),
            },
    {
        match decode_standard(text) {
            Ok(data) => Ok(Binary::new(data)),
            Err(_) => Err(BinaryError::Decode),
        }
    }

    /// The number of bytes held.
    pub fn size(&self) -> (n: usize)
        ensures
            n == self@.len(),
    {
        self.data.len()
    }

    /// A copy of the bytes held.
    pub fn read(&self) -> (r: Vec<u8>)
        ensures
            r@ == self@,
    {
        self.data.clone()
    }

    /// The textual form `binary!(<base64>)`.
    pub fn to_string(&self) -> (r: String)
        ensures
            r@ == binary_text(self@),
    {
        let mut out = String::from_str("binary!(");
        let body = encode_standard(self.data.as_slice());
        out.append(body.as_str());
        out.append(")");
        out
    }
}

impl Clone for Binary {
    fn clone(&self) -> (r: Self)
        ensures
            r@ == self@,
    {
        Binary { data: self.data.clone() }
    }
}

} // verus!
