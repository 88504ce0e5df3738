//! The reader of the notation.

use crate::binary_util::Binary;
use crate::dict::dict_insert;
use crate::grammar::{
    all_hex_or_u, bare_value_at, binary_at, bool_at, dict_at, entries_at, entry_at, escape_len,
    is_hex_or_u, is_plain, items_at, list_at, more_entries_at, more_items_at, number_at,
    number_start, payload_len, rest_len, string_at, text_len, tuple_at, value_at, BACKSLASH,
    CLOSE_BRACE, CLOSE_BRACKET, CLOSE_PAREN, COLON, COMMA, OPEN_BRACE, OPEN_BRACKET, OPEN_PAREN,
    QUOTE,
};
use crate::number::{read_number, Number};
use crate::scan::{
    lemma_boundary_after_ascii, skip_spaces, slice_text, starts_with, starts_with_any_case,
};
use crate::value::{entry_models, models, DValue, Datum};
use vstd::prelude::*;
use vstd::slice::*;
use vstd::string::*;
use vstd::utf8::*;

verus! {

/// The reader of the notation.
pub struct ValueParser {}

/// Why a text could not be read.
#[derive(Debug, Clone, Copy, PartialEq, Eq)]
pub enum ParseError {
    /// No value stands at the head of the text.
    NoValue,
}

impl ValueParser {
    /// Tells whether `b` may stand in a text as it is.
    pub fn normal(b: u8) -> (r: bool)
        ensures
            r == is_plain(b),
    {
        b != BACKSLASH && b != QUOTE && !(b < 0x20 || b == 0x7f)
    }

    /// Tells whether `b` is a hexadecimal digit or the letter `u`.
    pub fn hex_or_u(b: u8) -> (r: bool)
        ensures
            r == is_hex_or_u(b),
    {
        (0x30 <= b && b <= 0x39) || (0x61 <= b && b <= 0x66) || (0x41 <= b && b <= 0x46) || b
            == 0x75
    }

    /// The position behind the five bytes from `pos`, where each is a
    /// hexadecimal digit or `u`.
    pub fn parse_hex(bytes: &[u8], pos: usize) -> (r: Option<usize>)
        requires
            pos <= bytes@.len(),
        ensures
            r == if all_hex_or_u(bytes@, pos as int, 5) {
                Some((pos + 5) as usize)
            } else {
                None
            },
    {
        if bytes.len() - pos < 5 {
            return None;
        }
        let mut k: usize = 0;
        while k < 5
            invariant
                k <= 5,
                pos + 5 <= bytes@.len() <= usize::MAX,
                forall|j: int| pos <= j < pos + k ==> is_hex_or_u(#[trigger] bytes@[j]),
            decreases 5 - k,
        {
            if !Self::hex_or_u(bytes[pos + k]) {
                return None;
            }
            k += 1;
        }
        Some(pos + 5)
    }

    /// The position behind the escape that stands at `pos`, behind a backslash.
    pub fn escapable(bytes: &[u8], pos: usize) -> (r: Option<usize>)
        requires
            pos <= bytes@.len(),
        ensures
            match escape_len(bytes@, pos as int) {
                Some(n) => r == Some((pos + n) as usize) && pos + n <= bytes@.len(),
                None => r is None,
            },
    {
        if pos >= bytes.len() {
            return None;
        }
        let b = bytes[pos];
        if b == QUOTE || b == BACKSLASH || b == 0x2f || b == 0x62 || b == 0x66 || b == 0x6e || b
            == 0x72 || b == 0x74 {
            Some(pos + 1)
        } else if b == 0x75 {
            Self::parse_hex(bytes, pos)
        } else {
            None
        }
    }

    /// The position of the double quote that ends the text that stands at `pos`.
    pub fn string_format(bytes: &[u8], pos: usize) -> (r: Option<usize>)
        requires
            pos <= bytes@.len(),
        ensures
            match text_len(bytes@, pos as int) {
                Some(n) => r == Some((pos + n) as usize) && pos + n < bytes@.len() && bytes@[pos
                    + n] == QUOTE,
                None => r is None,
            },
    {
        let len = bytes.len();
        let mut cur = pos;
        loop
            invariant
                len == bytes@.len(),
                pos <= cur <= len,
                text_len(bytes@, pos as int) == match text_len(bytes@, cur as int) {
                    Some(n) => Some((n + (cur - pos)) as nat),
                    None => None,
                },
            decreases len - cur,
        {
            if cur >= len {
                return None;
            }
            let b = bytes[cur];
            if Self::normal(b) {
                cur += 1;
            } else if b == BACKSLASH {
                match Self::escapable(bytes, cur + 1) {
                    Some(end) => {
                        cur = end;
                    },
                    None => {
                        return None;
                    },
                }
            } else if b == QUOTE {
                return Some(cur);
            } else {
                return None;
            }
        }
    }

    /// The text literal that stands at `pos`, and the position behind it.
    pub fn parse_str(text: &str, pos: usize) -> (r: Option<(String, usize)>)
        requires
            pos <= text.spec_bytes().len(),
        ensures
            match string_at(text.spec_bytes(), pos as int) {
                Some((t, n)) => r matches Some((s, end)) && s@ == t && end == pos + n && end
                    <= text.spec_bytes().len(),
                None => r is None,
            },
    {
        broadcast use encode_utf8_valid_utf8;

        let bytes = text.as_bytes();
        if pos < bytes.len() && bytes[pos] == QUOTE {
            match Self::string_format(bytes, pos + 1) {
                Some(end) => {
                    proof {
                        lemma_boundary_after_ascii(bytes@, pos as int);
                        lemma_boundary_after_ascii(bytes@, end as int);
                    }
                    let piece = slice_text(text, pos + 1, end);
                    Some((String::from_str(piece), end + 1))
                },
                None => None,
            }
        } else {
            None
        }
    }

    /// The truth value that stands at `pos`, and the position behind it.
    pub fn parse_bool(bytes: &[u8], pos: usize) -> (r: Option<(bool, usize)>)
        requires
            pos <= bytes@.len(),
        ensures
            match bool_at(bytes@, pos as int) {
                Some((truth, n)) => r matches Some((t, end)) && t == truth && end == pos + n
                    && end <= bytes@.len(),
                None => r is None,
            },
    {
        assert(bytes.len() == bytes@.len());
        if starts_with_any_case(bytes, pos, "true") {
            Some((true, pos + "true".as_bytes().len()))
        } else if starts_with_any_case(bytes, pos, "false") {
            Some((false, pos + "false".as_bytes().len()))
        } else {
            None
        }
    }

    /// Tells whether a number may begin at `pos`.
    pub fn begins_number(bytes: &[u8], pos: usize) -> (r: bool)
        requires
            pos <= bytes@.len(),
        ensures
            r == number_start(bytes@, pos as int),
    {
        if pos >= bytes.len() {
            return false;
        }
        let b = bytes[pos];
        (0x30 <= b && b <= 0x39) || b == 0x2b || b == 0x2d || b == 0x2e || starts_with_any_case(
            bytes,
            pos,
            "nan",
        ) || starts_with_any_case(bytes, pos, "inf")
    }

    /// The number that stands at `pos`, and the position behind it.
    pub fn parse_num(bytes: &[u8], pos: usize) -> (r: Option<(Number, usize)>)
        requires
            pos <= bytes@.len(),
        ensures
            match number_at(bytes@, pos as int) {
                Some((text, n)) => r matches Some((number, end)) && number@ == text && end == pos
                    + n && end <= bytes@.len(),
                None => r is None,
            },
    {
        if !Self::begins_number(bytes, pos) {
            return None;
        }
        let rest = slice_subrange(bytes, pos, bytes.len());
        match read_number(rest) {
            Some((left, text)) => {
                let number = Number::from_reading(text, Ghost(rest@));
                Some((number, bytes.len() - left))
            },
            None => None,
        }
    }

    /// The position behind the bytes from `pos` on that may stand in the
    /// base64 text of a payload.
    pub fn payload_end(bytes: &[u8], pos: usize) -> (end: usize)
        requires
            pos <= bytes@.len(),
        ensures
            end == pos + payload_len(bytes@, pos as int),
            end <= bytes@.len(),
    {
        let mut cur = pos;
        while cur < bytes.len() && bytes[cur] != BACKSLASH && bytes[cur] != CLOSE_PAREN && !(
        bytes[cur] < 0x20 || bytes[cur] == 0x7f)
            invariant
                pos <= cur <= bytes@.len(),
                payload_len(bytes@, pos as int) == (cur - pos) + payload_len(bytes@, cur as int),
            decreases bytes@.len() - cur,
        {
            cur += 1;
        }
        cur
    }

    /// The payload literal that stands at `pos`, and the position behind it.
    pub fn parse_bin(bytes: &[u8], pos: usize) -> (r: Option<(Binary, usize)>)
        requires
            pos <= bytes@.len(),
        ensures
            match binary_at(bytes@, pos as int) {
                Some((data, n)) => r matches Some((payload, end)) && payload@ == data && end
                    == pos + n && end <= bytes@.len(),
                None => r is None,
            },
    {
        assert(bytes.len() == bytes@.len());
        if starts_with(bytes, pos, "binary!()") {
            Some((Binary::new(Vec::new()), pos + "binary!()".as_bytes().len()))
        } else if starts_with(bytes, pos, "binary!(") {
            let from = pos + "binary!(".as_bytes().len();
            let to = Self::payload_end(bytes, from);
            if to > from && to < bytes.len() && bytes[to] == CLOSE_PAREN {
                let payload = match Binary::from_b64_bytes(slice_subrange(bytes, from, to)) {
                    Ok(payload) => payload,
                    Err(_) => Binary::new(Vec::new()),
                };
                Some((payload, to + 1))
            } else {
                None
            }
        } else {
            None
        }
    }

    /// The value that stands at `pos`, with the whitespace around it, and
    /// the position behind it.
    pub fn parse_at(text: &str, pos: usize) -> (r: Option<(DValue, usize)>)
        requires
            pos <= text.spec_bytes().len(),
        ensures
            match value_at(text.spec_bytes(), pos as int) {
                Some((v, n)) => r matches Some((d, end)) && d@ == v && end == pos + n && end
                    <= text.spec_bytes().len(),
                None => r is None,
            },
        decreases rest_len(text.spec_bytes(), pos as int), 3int,
    {
        let bytes = text.as_bytes();
        let start = skip_spaces(bytes, pos);
        match Self::parse_bare(text, start) {
            Some((value, end)) => Some((value, skip_spaces(bytes, end))),
            None => None,
        }
    }

    /// The value that stands at `pos`, and the position behind it.
    pub fn parse_bare(text: &str, pos: usize) -> (r: Option<(DValue, usize)>)
        requires
            pos <= text.spec_bytes().len(),
        ensures
            match bare_value_at(text.spec_bytes(), pos as int) {
                Some((v, n)) => r matches Some((d, end)) && d@ == v && end == pos + n && end
                    <= text.spec_bytes().len(),
                None => r is None,
            },
        decreases rest_len(text.spec_bytes(), pos as int), 2int,
    {
        let bytes = text.as_bytes();
        if let Some((number, end)) = Self::parse_num(bytes, pos) {
            return Some((DValue::Number(number), end));
        }
        if let Some((truth, end)) = Self::parse_bool(bytes, pos) {
            return Some((DValue::Boolean(truth), end));
        }
        if let Some((s, end)) = Self::parse_str(text, pos) {
            return Some((DValue::String(s), end));
        }
        if let Some((items, end)) = Self::parse_list(text, pos) {
            return Some((DValue::List(items), end));
        }
        if let Some((entries, end)) = Self::parse_dict(text, pos) {
            return Some((DValue::Dict(entries), end));
        }
        if let Some((pair, end)) = Self::parse_tuple(text, pos) {
            return Some((DValue::Tuple(pair), end));
        }
        if let Some((payload, end)) = Self::parse_bin(bytes, pos) {
            return Some((DValue::BinaryUtil(payload), end));
        }
        None
    }

    /// The list that stands at `pos`, and the position behind it.
    pub fn parse_list(text: &str, pos: usize) -> (r: Option<(Vec<DValue>, usize)>)
        requires
            pos <= text.spec_bytes().len(),
        ensures
            match list_at(text.spec_bytes(), pos as int) {
                Some((items, n)) => r matches Some((list, end)) && models(list@) == items && end
                    == pos + n && end <= text.spec_bytes().len(),
                None => r is None,
            },
        decreases rest_len(text.spec_bytes(), pos as int), 1int,
    {
        let bytes = text.as_bytes();
        if pos < bytes.len() && bytes[pos] == OPEN_BRACKET {
            let (items, end) = Self::parse_items(text, pos + 1);
            if end < bytes.len() && bytes[end] == CLOSE_BRACKET {
                Some((items, end + 1))
            } else {
                None
            }
        } else {
            None
        }
    }

    /// The values parted by commas that stand at `pos`, and the position
    /// behind them.
    pub fn parse_items(text: &str, pos: usize) -> (r: (Vec<DValue>, usize))
        requires
            pos <= text.spec_bytes().len(),
        ensures
            models(r.0@) == items_at(text.spec_bytes(), pos as int).0,
            r.1 == pos + items_at(text.spec_bytes(), pos as int).1,
            r.1 <= text.spec_bytes().len(),
        decreases rest_len(text.spec_bytes(), pos as int), 5int,
    {
        let bytes = text.as_bytes();
        let len = bytes.len();
        let ghost s = text.spec_bytes();
        let mut items: Vec<DValue> = Vec::new();
        let mut cur = pos;
        match Self::parse_at(text, pos) {
            Some((value, end)) => {
                items.push(value);
                cur = end;
                assert(models(items@) =~= seq![value@]);
            },
            None => {
                assert(models(items@) =~= Seq::<Datum>::empty());
                return (items, pos);
            },
        }
        loop
            invariant
                s == text.spec_bytes(),
                bytes@ == s,
                len == s.len(),
                pos <= cur <= len,
                items_at(s, pos as int) == more_items_at(
                    s,
                    cur as int,
                    models(items@),
                    (cur - pos) as nat,
                ),
            decreases len - cur,
        {
            if cur < len && bytes[cur] == COMMA {
                match Self::parse_at(text, cur + 1) {
                    Some((value, end)) => {
                        let ghost before = models(items@);
                        items.push(value);
                        assert(models(items@) =~= before.push(value@));
                        cur = end;
                    },
                    None => {
                        return (items, cur);
                    },
                }
            } else {
                return (items, cur);
            }
        }
    }

    /// The entry that stands at `pos`, and the position behind it.
    pub fn parse_entry(text: &str, pos: usize) -> (r: Option<(String, DValue, usize)>)
        requires
            pos <= text.spec_bytes().len(),
        ensures
            match entry_at(text.spec_bytes(), pos as int) {
                Some((key, v, n)) => r matches Some((k, d, end)) && k@ == key && d@ == v && end
                    == pos + n && end <= text.spec_bytes().len(),
                None => r is None,
            },
        decreases rest_len(text.spec_bytes(), pos as int), 4int,
    {
        let bytes = text.as_bytes();
        let start = skip_spaces(bytes, pos);
        match Self::parse_str(text, start) {
            Some((key, end)) => {
                let colon = skip_spaces(bytes, end);
                if colon < bytes.len() && bytes[colon] == COLON {
                    match Self::parse_at(text, colon + 1) {
                        Some((value, end)) => Some((key, value, end)),
                        None => None,
                    }
                } else {
                    None
                }
            },
            None => None,
        }
    }

    /// The dictionary that stands at `pos`, and the position behind it.
    pub fn parse_dict(text: &str, pos: usize) -> (r: Option<(Vec<(String, DValue)>, usize)>)
        requires
            pos <= text.spec_bytes().len(),
        ensures
            match dict_at(text.spec_bytes(), pos as int) {
                Some((entries, n)) => r matches Some((dict, end)) && entry_models(dict@)
                    == entries && end == pos + n && end <= text.spec_bytes().len(),
                None => r is None,
            },
        decreases rest_len(text.spec_bytes(), pos as int), 1int,
    {
        let bytes = text.as_bytes();
        if pos < bytes.len() && bytes[pos] == OPEN_BRACE {
            let (entries, end) = Self::parse_entries(text, pos + 1);
            if end < bytes.len() && bytes[end] == CLOSE_BRACE {
                Some((entries, end + 1))
            } else {
                None
            }
        } else {
            None
        }
    }

    /// The entries parted by commas that stand at `pos`, and the position
    /// behind them.
    pub fn parse_entries(text: &str, pos: usize) -> (r: (Vec<(String, DValue)>, usize))
        requires
            pos <= text.spec_bytes().len(),
        ensures
            entry_models(r.0@) == entries_at(text.spec_bytes(), pos as int).0,
            r.1 == pos + entries_at(text.spec_bytes(), pos as int).1,
            r.1 <= text.spec_bytes().len(),
        decreases rest_len(text.spec_bytes(), pos as int), 6int,
    {
        let bytes = text.as_bytes();
        let len = bytes.len();
        let ghost s = text.spec_bytes();
        let mut entries: Vec<(String, DValue)> = Vec::new();
        let mut cur = pos;
        match Self::parse_entry(text, pos) {
            Some((key, value, end)) => {
                entries.push((key, value));
                cur = end;
                assert(entry_models(entries@) =~= seq![(key@, value@)]);
            },
            None => {
                assert(entry_models(entries@) =~= Seq::<(Seq<char>, Datum)>::empty());
                return (entries, pos);
            },
        }
        loop
            invariant
                s == text.spec_bytes(),
                bytes@ == s,
                len == s.len(),
                pos <= cur <= len,
                entries_at(s, pos as int) == more_entries_at(
                    s,
                    cur as int,
                    entry_models(entries@),
                    (cur - pos) as nat,
                ),
            decreases len - cur,
        {
            if cur < len && bytes[cur] == COMMA {
                match Self::parse_entry(text, cur + 1) {
                    Some((key, value, end)) => {
                        dict_insert(&mut entries, key, value);
                        cur = end;
                    },
                    None => {
                        return (entries, cur);
                    },
                }
            } else {
                return (entries, cur);
            }
        }
    }

    /// The tuple that stands at `pos`, and the position behind it.
    pub fn parse_tuple(text: &str, pos: usize) -> (r: Option<((Box<DValue>, Box<DValue>), usize)>)
        requires
            pos <= text.spec_bytes().len(),
        ensures
            match tuple_at(text.spec_bytes(), pos as int) {
                Some((first, second, n)) => r matches Some((pair, end)) && pair.0@ == first
                    && pair.1@ == second && end == pos + n && end <= text.spec_bytes().len(),
                None => r is None,
            },
        decreases rest_len(text.spec_bytes(), pos as int), 1int,
    {
        let bytes = text.as_bytes();
        if pos < bytes.len() && bytes[pos] == OPEN_PAREN {
            match Self::parse_at(text, pos + 1) {
                Some((first, comma)) => {
                    if comma < bytes.len() && bytes[comma] == COMMA {
                        match Self::parse_at(text, comma + 1) {
                            Some((second, close)) => {
                                if close < bytes.len() && bytes[close] == CLOSE_PAREN {
                                    Some(((Box::new(first), Box::new(second)), close + 1))
                                } else {
                                    None
                                }
                            },
                            None => None,
                        }
                    } else {
                        None
                    }
                },
                None => None,
            }
        } else {
            None
        }
    }

    /// The value that stands at the head of `msg`, with the whitespace
    /// around it, and the rest of `msg`.
    pub fn parse(msg: &str) -> (r: Result<(&str, DValue), ParseError>)
        ensures
            match value_at(msg.spec_bytes(), 0) {
                Some((v, n)) => if is_char_boundary(msg.spec_bytes(), n as int) {
                    r matches Ok((rest, d)) && d@ == v && rest.spec_bytes()
                        == msg.spec_bytes().subrange(n as int, msg.spec_bytes().len() as int)
                } else {
                    r == Err::<(&str, DValue), ParseError>(ParseError::NoValue)
                },
                None => r == Err::<(&str, DValue), ParseError>(ParseError::NoValue),
            },
    {
        match Self::parse_at(msg, 0) {
            Some((value, end)) => {
                if msg.is_char_boundary(end) {
                    let (_, rest) = msg.split_at(end);
                    Ok((rest, value))
                } else {
                    Err(ParseError::NoValue)
                }
            },
            None => Err(ParseError::NoValue),
        }
    }
}

} // verus!
