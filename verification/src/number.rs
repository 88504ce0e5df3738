//! Numbers, held by their decimal text.

use vstd::prelude::*;
use vstd::utf8::*;

verus! {

/// What `nom::number::complete::double` reads at the head of `input`: how many
/// bytes it leaves unread, and the decimal text that the number it read is
/// written with. `None` where no number stands at the head of `input`.
pub uninterp spec fn number_prefix(input: Seq<u8>) -> Option<(nat, Seq<char>)>;

/// `nom::number::complete::double` on a byte slice. On success the pair holds
/// the length of the unread rest, which is a suffix of `input`, and the text
/// that `to_string` gives for the number read.
#[verifier::external_body]
pub(crate) fn read_number(input: &[u8]) -> (r: Option<(usize, String)>)
    ensures
        match r {
            Some((rest, text)) => rest <= input@.len() && number_prefix(input@) == Some(
                (rest as nat, text@),
            ),
            None => number_prefix(input@) is None,
        },
{
    match nom::number::complete::double::<&[u8], nom::error::Error<&[u8]>>(input) {
        Ok((rest, x)) => Some((rest.len(), x.to_string())),
        Err(_) => None,
    }
}

/// The decimal text of the number that `input` as a whole denotes.
pub open spec fn number_text(input: Seq<u8>) -> Option<Seq<char>> {
    match number_prefix(input) {
        Some((rest, text)) => if rest == 0 {
            Some(text)
        } else {
            None
        },
        None => None,
    }
}

/// True of the texts that some number is written with.
pub open spec fn is_number_text(text: Seq<char>) -> bool {
    exists|input: Seq<u8>| reads_as(input, text)
}

/// True where the number at the head of `input` is written with `text`.
pub open spec fn reads_as(input: Seq<u8>, text: Seq<char>) -> bool {
    number_prefix(input) matches Some((_, t)) && t == text
}

/// A 64-bit floating-point number, held by the decimal text it is written with.
#[derive(Debug)]
pub struct Number {
    text: String,
}

impl View for Number {
    type V = Seq<char>;

    closed spec fn view(&self) -> Seq<char> {
        self.text@
    }
}

impl Number {
    #[verifier::type_invariant]
    spec fn canonical(&self) -> bool {
        is_number_text(self.text@)
    }

    /// The number that was read with `text` as its decimal text.
    pub(crate) fn from_reading(text: String, Ghost(input): Ghost<Seq<u8>>) -> (r: Self)
        requires
            reads_as(input, text@),
        ensures
            r@ == text@,
    {
        Number { text }
    }

    /// The number that `text` as a whole denotes, if it denotes one.
    pub fn from_text(text: &str) -> (r: Option<Self>)
        ensures
            r.is_some() == number_text(encode_utf8(text@)).is_some(),
            r matches Some(n) ==> number_text(encode_utf8(text@)) == Some(n@),
    {
        let bytes = text.as_bytes();
        match read_number(bytes) {
            Some((rest, decimal)) => {
                if rest == 0 {
                    Some(Number::from_reading(decimal, Ghost(bytes@)))
                } else {
                    None
                }
            },
            None => None,
        }
    }

    /// The decimal text of the number.
    pub fn text(&self) -> (r: String)
        ensures
            r@ == self@,
            is_number_text(r@),
    {
        proof {
            use_type_invariant(self);
        }
        self.text.clone()
    }
}

impl Clone for Number {
    fn clone(&self) -> (r: Self)
        ensures
            r@ == self@,
    {
        proof {
            use_type_invariant(self);
        }
        Number { text: self.text.clone() }
    }
}

} // verus!
