//! Reading back the canonical text of a value.

use crate::base64_codec::{base64_payload, base64_text};
use crate::dict::{distinct_keys, lemma_with_entry_new};
use crate::grammar::{
    all_hex_or_u, bare_value_at, binary_at, bool_at, denoted, dict_at, entries_at, entry_at,
    escape_len, has_word, has_word_any_case, is_digit, is_envelope, is_hex_or_u, is_payload_byte,
    is_plain, is_simple_escape, is_space, items_at, list_at, lower, more_entries_at,
    more_items_at, number_at, number_start, payload_len, spaces, string_at, text_len, tuple_at,
    value_at, BACKSLASH, CLOSE_BRACE, CLOSE_BRACKET, CLOSE_PAREN, COLON, COMMA, OPEN_BRACE,
    OPEN_BRACKET, OPEN_PAREN, QUOTE,
};
use crate::number::number_prefix;
use crate::render::{render, render_entries, render_entry, render_items};
use crate::value::Datum;
use vstd::prelude::*;
use vstd::utf8::*;

verus! {

/// The UTF-8 form of two texts in a row is the UTF-8 forms of the two in a
/// row.
pub proof fn lemma_encode_concat(a: Seq<char>, b: Seq<char>)
    ensures
        encode_utf8(a + b) == encode_utf8(a) + encode_utf8(b),
    decreases a.len(),
{
    if a.len() == 0 {
        assert(a + b =~= b);
        assert(encode_utf8(a) + encode_utf8(b) =~= encode_utf8(b));
    } else {
        lemma_encode_concat(a.drop_first(), b);
        assert((a + b).drop_first() =~= a.drop_first() + b);
        assert((a + b)[0] == a[0]);
        assert(encode_utf8(a + b) =~= encode_scalar(a[0] as u32) + (encode_utf8(a.drop_first())
            + encode_utf8(b)));
        assert(encode_utf8(a) + encode_utf8(b) =~= encode_scalar(a[0] as u32) + (encode_utf8(
            a.drop_first(),
        ) + encode_utf8(b)));
    }
}

/// The bytes of the words of the notation.
proof fn lemma_word_bytes()
    ensures
        encode_utf8("\""@) == seq![QUOTE],
        encode_utf8("["@) == seq![OPEN_BRACKET],
        encode_utf8("]"@) == seq![CLOSE_BRACKET],
        encode_utf8("{"@) == seq![OPEN_BRACE],
        encode_utf8("}"@) == seq![CLOSE_BRACE],
        encode_utf8("("@) == seq![OPEN_PAREN],
        encode_utf8(")"@) == seq![CLOSE_PAREN],
        encode_utf8(","@) == seq![COMMA],
        encode_utf8(", "@) == seq![COMMA, 0x20u8],
        encode_utf8("\":"@) == seq![QUOTE, COLON],
        encode_utf8("true"@) == seq![0x74u8, 0x72u8, 0x75u8, 0x65u8],
        encode_utf8("false"@) == seq![0x66u8, 0x61u8, 0x6cu8, 0x73u8, 0x65u8],
        encode_utf8("none"@) == seq![0x6eu8, 0x6fu8, 0x6eu8, 0x65u8],
        encode_utf8("nan"@) == seq![0x6eu8, 0x61u8, 0x6eu8],
        encode_utf8("inf"@) == seq![0x69u8, 0x6eu8, 0x66u8],
        encode_utf8("binary!("@) == seq![
            0x62u8,
            0x69u8,
            0x6eu8,
            0x61u8,
            0x72u8,
            0x79u8,
            0x21u8,
            0x28u8,
        ],
        encode_utf8("binary!()"@) == seq![
            0x62u8,
            0x69u8,
            0x6eu8,
            0x61u8,
            0x72u8,
            0x79u8,
            0x21u8,
            0x28u8,
            0x29u8,
        ],
{
    reveal_strlit("\"");
    reveal_strlit("[");
    reveal_strlit("]");
    reveal_strlit("{");
    reveal_strlit("}");
    reveal_strlit("(");
    reveal_strlit(")");
    reveal_strlit(",");
    reveal_strlit(", ");
    reveal_strlit("\":");
    reveal_strlit("true");
    reveal_strlit("false");
    reveal_strlit("none");
    reveal_strlit("nan");
    reveal_strlit("inf");
    reveal_strlit("binary!(");
    reveal_strlit("binary!()");
    lemma_ascii_bytes("\""@);
    lemma_ascii_bytes("["@);
    lemma_ascii_bytes("]"@);
    lemma_ascii_bytes("{"@);
    lemma_ascii_bytes("}"@);
    lemma_ascii_bytes("("@);
    lemma_ascii_bytes(")"@);
    lemma_ascii_bytes(","@);
    lemma_ascii_bytes(", "@);
    lemma_ascii_bytes("\":"@);
    lemma_ascii_bytes("true"@);
    lemma_ascii_bytes("false"@);
    lemma_ascii_bytes("none"@);
    lemma_ascii_bytes("nan"@);
    lemma_ascii_bytes("inf"@);
    lemma_ascii_bytes("binary!("@);
    lemma_ascii_bytes("binary!()"@);
    assert(encode_utf8("\""@) =~= seq![QUOTE]);
    assert(encode_utf8("["@) =~= seq![OPEN_BRACKET]);
    assert(encode_utf8("]"@) =~= seq![CLOSE_BRACKET]);
    assert(encode_utf8("{"@) =~= seq![OPEN_BRACE]);
    assert(encode_utf8("}"@) =~= seq![CLOSE_BRACE]);
    assert(encode_utf8("("@) =~= seq![OPEN_PAREN]);
    assert(encode_utf8(")"@) =~= seq![CLOSE_PAREN]);
    assert(encode_utf8(","@) =~= seq![COMMA]);
    assert(encode_utf8(", "@) =~= seq![COMMA, 0x20u8]);
    assert(encode_utf8("\":"@) =~= seq![QUOTE, COLON]);
    assert(encode_utf8("true"@) =~= seq![0x74u8, 0x72u8, 0x75u8, 0x65u8]);
    assert(encode_utf8("false"@) =~= seq![0x66u8, 0x61u8, 0x6cu8, 0x73u8, 0x65u8]);
    assert(encode_utf8("none"@) =~= seq![0x6eu8, 0x6fu8, 0x6eu8, 0x65u8]);
    assert(encode_utf8("nan"@) =~= seq![0x6eu8, 0x61u8, 0x6eu8]);
    assert(encode_utf8("inf"@) =~= seq![0x69u8, 0x6eu8, 0x66u8]);
    assert(encode_utf8("binary!("@) =~= seq![
        0x62u8,
        0x69u8,
        0x6eu8,
        0x61u8,
        0x72u8,
        0x79u8,
        0x21u8,
        0x28u8,
    ]);
    assert(encode_utf8("binary!()"@) =~= seq![
        0x62u8,
        0x69u8,
        0x6eu8,
        0x61u8,
        0x72u8,
        0x79u8,
        0x21u8,
        0x28u8,
        0x29u8,
    ]);
}

/// The UTF-8 form of an ASCII text holds one byte for each character.
proof fn lemma_ascii_bytes(t: Seq<char>)
    requires
        is_ascii_chars(t),
    ensures
        encode_utf8(t).len() == t.len(),
        forall|i: int| 0 <= i < t.len() ==> #[trigger] encode_utf8(t)[i] == t[i] as u8,
{
    is_ascii_chars_encode_utf8(t);
}

/// True where the bytes `part` stand in `s` at `p`.
pub open spec fn stands_at(s: Seq<u8>, p: int, part: Seq<u8>) -> bool {
    0 <= p && p + part.len() <= s.len() && s.subrange(p, p + part.len()) == part
}

/// A byte that closes a list, a dictionary or a tuple, or parts two values.
pub open spec fn is_stop(b: u8) -> bool {
    b == COMMA || b == CLOSE_BRACKET || b == CLOSE_BRACE || b == CLOSE_PAREN
}

/// True where `s` ends at `q`, or a byte stands there that closes or parts
/// values.
pub open spec fn stops_at(s: Seq<u8>, q: int) -> bool {
    q == s.len() || (0 <= q < s.len() && is_stop(s[q]))
}

/// Each byte of what stands in `s` stands in its place.
proof fn lemma_stands_byte(s: Seq<u8>, p: int, whole: Seq<u8>, k: int)
    requires
        stands_at(s, p, whole),
        0 <= k < whole.len(),
    ensures
        s[p + k] == whole[k],
{
    assert(s.subrange(p, p + whole.len())[k] == s[p + k]);
}

/// Each part of what stands in `s` stands in its place.
proof fn lemma_stands_part(s: Seq<u8>, p: int, whole: Seq<u8>, a: int, part: Seq<u8>)
    requires
        stands_at(s, p, whole),
        0 <= a,
        a + part.len() <= whole.len(),
        whole.subrange(a, a + part.len()) == part,
    ensures
        stands_at(s, p + a, part),
{
    assert(s.subrange(p + a, p + a + part.len()) =~= s.subrange(p, p + whole.len()).subrange(
        a,
        a + part.len(),
    ));
}

/// True where the bytes of `c` from `i` on are plain bytes and escapes.
pub open spec fn text_through(c: Seq<u8>, i: int) -> bool
    decreases c.len() - i,
{
    if i < 0 {
        false
    } else if i >= c.len() {
        true
    } else if is_plain(c[i]) {
        text_through(c, i + 1)
    } else if c[i] == BACKSLASH {
        match escape_len(c, i + 1) {
            Some(e) => text_through(c, i + 1 + e),
            None => false,
        }
    } else {
        false
    }
}

/// True of the texts that can stand between double quotes: no double quote
/// and no control character is in them, and each backslash begins an escape.
pub open spec fn is_text(t: Seq<char>) -> bool {
    text_through(encode_utf8(t), 0)
}

/// A text that stands before a double quote is read up to it.
proof fn lemma_text_len(s: Seq<u8>, p: int, c: Seq<u8>, i: int)
    requires
        stands_at(s, p, c),
        p + c.len() < s.len(),
        s[p + c.len()] == QUOTE,
        0 <= i <= c.len(),
        text_through(c, i),
    ensures
        text_len(s, p + i) == Some((c.len() - i) as nat),
    decreases c.len() - i,
{
    if i < c.len() {
        lemma_stands_byte(s, p, c, i);
        if is_plain(c[i]) {
            lemma_text_len(s, p, c, i + 1);
        } else {
            let e = escape_len(c, i + 1)->0;
            lemma_stands_byte(s, p, c, i + 1);
            if !is_simple_escape(c[i + 1]) {
                assert(all_hex_or_u(c, i + 1, 5));
                assert forall|k: int| p + i + 1 <= k < p + i + 1 + 5 implies is_hex_or_u(
                    #[trigger] s[k],
                ) by {
                    lemma_stands_byte(s, p, c, k - p);
                }
                assert(all_hex_or_u(s, p + i + 1, 5));
            }
            assert(escape_len(s, p + i + 1) == Some(e));
            lemma_text_len(s, p, c, i + 1 + e);
        }
    }
}

/// No number begins with a byte that is no digit, sign or dot and no letter
/// `n` or `i`.
proof fn lemma_not_number(s: Seq<u8>, p: int)
    requires
        0 <= p < s.len(),
        !is_digit(s[p]),
        s[p] != 0x2b,
        s[p] != 0x2d,
        s[p] != 0x2e,
        lower(s[p]) != 0x6e,
        lower(s[p]) != 0x69,
    ensures
        number_at(s, p) is None,
{
    lemma_word_bytes();
    assert(s[p + 0] == s[p]);
    assert(encode_utf8("nan"@)[0] == 0x6e);
    assert(encode_utf8("inf"@)[0] == 0x69);
}

/// No truth value begins with a byte that is no letter `t` or `f`.
proof fn lemma_not_bool(s: Seq<u8>, p: int)
    requires
        0 <= p < s.len(),
        lower(s[p]) != 0x74,
        lower(s[p]) != 0x66,
    ensures
        bool_at(s, p) is None,
{
    lemma_word_bytes();
    assert(s[p + 0] == s[p]);
    assert(encode_utf8("true"@)[0] == 0x74);
    assert(encode_utf8("false"@)[0] == 0x66);
}

/// No payload literal begins with a byte that is no letter `b`.
proof fn lemma_not_binary(s: Seq<u8>, p: int)
    requires
        0 <= p < s.len(),
        s[p] != 0x62,
    ensures
        binary_at(s, p) is None,
{
    lemma_word_bytes();
    let long = encode_utf8("binary!()"@);
    let short = encode_utf8("binary!("@);
    if has_word(s, p, "binary!()"@) {
        assert(s.subrange(p, p + long.len())[0] == s[p]);
    }
    if has_word(s, p, "binary!("@) {
        assert(s.subrange(p, p + short.len())[0] == s[p]);
    }
}

/// The text literal of a text is read back as the text.
pub proof fn lemma_string_reads_back(t: Seq<char>, s: Seq<u8>, p: int)
    requires
        is_text(t),
        stands_at(s, p, encode_utf8(render(Datum::String(t)))),
    ensures
        string_at(s, p) == Some((t, encode_utf8(render(Datum::String(t))).len())),
        encode_utf8(render(Datum::String(t))).len() == encode_utf8(t).len() + 2,
        s[p] == QUOTE,
{
    lemma_word_bytes();
    let c = encode_utf8(t);
    let whole = encode_utf8(render(Datum::String(t)));
    lemma_encode_concat("\""@ + t, "\""@);
    lemma_encode_concat("\""@, t);
    assert(whole == seq![QUOTE] + c + seq![QUOTE]);
    lemma_stands_byte(s, p, whole, 0);
    lemma_stands_byte(s, p, whole, c.len() as int + 1);
    assert(whole.subrange(1, 1 + c.len() as int) =~= c);
    lemma_stands_part(s, p, whole, 1, c);
    lemma_text_len(s, p + 1, c, 0);
    assert(s.subrange(p + 1, p + 1 + c.len()) == c);
    encode_utf8_decode_utf8(t);
}

/// True of the decimal texts of numbers that are read back wherever they
/// stand: at the end of a text, or before a byte that closes or parts values.
pub open spec fn number_reads_back(t: Seq<char>) -> bool {
    let c = encode_utf8(t);
    number_start(c, 0) && forall|r: Seq<u8>|
        (r.len() == 0 || is_stop(r[0])) ==> #[trigger] number_prefix(c + r) == Some((r.len(), t))
}

/// True of the payloads that are read back from their base64 text: the text
/// holds no backslash, closing parenthesis or control character, and stands
/// for the payload.
pub open spec fn payload_reads_back(d: Seq<u8>) -> bool {
    let c = encode_utf8(base64_text(d));
    if c.len() == 0 {
        d.len() == 0
    } else {
        base64_payload(c) == Some(d) && forall|k: int|
            0 <= k < c.len() ==> is_payload_byte(#[trigger] c[k])
    }
}

/// The decimal text of a number is read back as the number.
pub proof fn lemma_number_reads_back(t: Seq<char>, s: Seq<u8>, p: int)
    requires
        number_reads_back(t),
        stands_at(s, p, encode_utf8(t)),
        stops_at(s, p + encode_utf8(t).len()),
    ensures
        number_at(s, p) == Some((t, encode_utf8(t).len())),
        encode_utf8(t).len() > 0,
        !is_space(s[p]),
        s[p] != 0x62,
{
    lemma_word_bytes();
    let c = encode_utf8(t);
    lemma_stands_byte(s, p, c, 0);
    assert(c[0int + 0] == c[0]);
    assert(s[p + 0] == s[p]);
    if has_word_any_case(c, 0, "nan"@) {
        assert forall|k: int| 0 <= k < 3 implies lower(#[trigger] s[p + k]) == lower(
            encode_utf8("nan"@)[k],
        ) by {
            lemma_stands_byte(s, p, c, k);
            assert(c[0int + k] == c[k]);
        }
        assert(lower(c[0]) == lower(encode_utf8("nan"@)[0]));
    }
    if has_word_any_case(c, 0, "inf"@) {
        assert forall|k: int| 0 <= k < 3 implies lower(#[trigger] s[p + k]) == lower(
            encode_utf8("inf"@)[k],
        ) by {
            lemma_stands_byte(s, p, c, k);
            assert(c[0int + k] == c[k]);
        }
        assert(lower(c[0]) == lower(encode_utf8("inf"@)[0]));
    }
    assert(number_start(s, p));
    let r = s.subrange(p + c.len(), s.len() as int);
    assert(s.subrange(p, s.len() as int) =~= c + r);
    if r.len() > 0 {
        assert(r[0] == s[p + c.len()]);
    }
    assert(number_prefix(c + r) == Some((r.len(), t)));
}

/// The word of a truth value is read back as the truth value.
pub proof fn lemma_bool_reads_back(truth: bool, s: Seq<u8>, p: int)
    requires
        stands_at(s, p, encode_utf8(render(Datum::Boolean(truth)))),
    ensures
        number_at(s, p) is None,
        bool_at(s, p) == Some((truth, encode_utf8(render(Datum::Boolean(truth))).len())),
        encode_utf8(render(Datum::Boolean(truth))).len() > 0,
        !is_space(s[p]),
        s[p] != 0x62,
{
    lemma_word_bytes();
    let w = encode_utf8(render(Datum::Boolean(truth)));
    lemma_stands_byte(s, p, w, 0);
    assert(s[p + 0] == s[p]);
    lemma_not_number(s, p);
    assert forall|k: int| 0 <= k < w.len() implies lower(#[trigger] s[p + k]) == lower(w[k]) by {
        lemma_stands_byte(s, p, w, k);
    }
    if !truth {
        assert(lower(s[p + 0]) != lower(encode_utf8("true"@)[0]));
    }
}

/// The bytes of a base64 text that stands before a closing parenthesis are
/// counted up to it.
proof fn lemma_payload_len(s: Seq<u8>, p: int, c: Seq<u8>, i: int)
    requires
        stands_at(s, p, c),
        p + c.len() < s.len(),
        s[p + c.len()] == CLOSE_PAREN,
        0 <= i <= c.len(),
        forall|k: int| 0 <= k < c.len() ==> is_payload_byte(#[trigger] c[k]),
    ensures
        payload_len(s, p + i) == (c.len() - i) as nat,
    decreases c.len() - i,
{
    if i < c.len() {
        lemma_stands_byte(s, p, c, i);
        lemma_payload_len(s, p, c, i + 1);
    }
}

/// The payload literal of a payload is read back as the payload.
pub proof fn lemma_binary_reads_back(d: Seq<u8>, s: Seq<u8>, p: int)
    requires
        payload_reads_back(d),
        stands_at(s, p, encode_utf8(render(Datum::Binary(d)))),
    ensures
        number_at(s, p) is None,
        bool_at(s, p) is None,
        binary_at(s, p) == Some((d, encode_utf8(render(Datum::Binary(d))).len())),
        encode_utf8(render(Datum::Binary(d))).len() > 0,
        s[p] == 0x62,
{
    lemma_word_bytes();
    let c = encode_utf8(base64_text(d));
    let open = encode_utf8("binary!("@);
    let whole = encode_utf8(render(Datum::Binary(d)));
    lemma_encode_concat("binary!("@ + base64_text(d), ")"@);
    lemma_encode_concat("binary!("@, base64_text(d));
    assert(whole == open + c + seq![CLOSE_PAREN]);
    lemma_stands_byte(s, p, whole, 0);
    assert(s[p + 0] == s[p]);
    lemma_not_number(s, p);
    lemma_not_bool(s, p);
    assert(whole.subrange(0, 8) =~= open);
    lemma_stands_part(s, p, whole, 0, open);
    lemma_stands_byte(s, p, whole, 8 + c.len() as int);
    if c.len() == 0 {
        assert(whole =~= encode_utf8("binary!()"@));
        assert(d =~= Seq::<u8>::empty());
    } else {
        lemma_stands_byte(s, p, whole, 8);
        assert(is_payload_byte(c[0]));
        if has_word(s, p, "binary!()"@) {
            assert(s.subrange(p, p + 9)[8] == s[p + 8]);
        }
        assert(whole.subrange(8, 8 + c.len() as int) =~= c);
        lemma_stands_part(s, p, whole, 8, c);
        lemma_payload_len(s, p + 8, c, 0);
        assert(s.subrange(p + 8, p + 8 + c.len()) == c);
    }
}

/// True of the values whose canonical text is read back as the value: no
/// absent value is in them, their texts and keys can stand between double
/// quotes, no dictionary holds a key twice, and their numbers and payloads
/// are read back from their texts.
pub open spec fn readable(v: Datum) -> bool
    decreases v,
{
    match v {
        Datum::Null => false,
        Datum::String(t) => is_text(t),
        Datum::Number(t) => number_reads_back(t),
        Datum::Boolean(_) => true,
        Datum::List(items) => readable_items(items),
        Datum::Dict(entries) => distinct_keys(entries) && readable_entries(entries),
        Datum::Tuple(first, second) => readable(*first) && readable(*second),
        Datum::Binary(d) => payload_reads_back(d),
    }
}

/// True where each of `items` is readable.
pub open spec fn readable_items(items: Seq<Datum>) -> bool
    decreases items,
{
    forall|i: int| 0 <= i < items.len() ==> readable(#[trigger] items[i])
}

/// True where each of `entries` has a key that can stand between double
/// quotes and a readable value.
pub open spec fn readable_entries(entries: Seq<(Seq<char>, Datum)>) -> bool
    decreases entries,
{
    forall|i: int|
        0 <= i < entries.len() ==> is_text((#[trigger] entries[i]).0) && readable(entries[i].1)
}

/// The bytes of the canonical text of a value.
pub open spec fn bytes_of(v: Datum) -> Seq<u8> {
    encode_utf8(render(v))
}

/// The bytes of the text of an entry.
spec fn entry_bytes(key: Seq<char>, v: Datum) -> Seq<u8> {
    seq![QUOTE] + encode_utf8(key) + seq![QUOTE, COLON] + bytes_of(v)
}

/// The bytes of the texts of `items`, each behind a comma.
spec fn items_tail(items: Seq<Datum>) -> Seq<u8>
    decreases items.len(),
{
    if items.len() == 0 {
        Seq::empty()
    } else {
        seq![COMMA] + bytes_of(items[0]) + items_tail(items.drop_first())
    }
}

/// The bytes of the texts of `entries`, each behind a comma.
spec fn entries_tail(entries: Seq<(Seq<char>, Datum)>) -> Seq<u8>
    decreases entries.len(),
{
    if entries.len() == 0 {
        Seq::empty()
    } else {
        seq![COMMA] + entry_bytes(entries[0].0, entries[0].1) + entries_tail(
            entries.drop_first(),
        )
    }
}

/// One more item adds a comma and its text.
proof fn lemma_items_tail_push(items: Seq<Datum>, v: Datum)
    ensures
        items_tail(items.push(v)) == items_tail(items) + seq![COMMA] + bytes_of(v),
    decreases items.len(),
{
    if items.len() == 0 {
        let rest = items.push(v).drop_first();
        assert(rest =~= Seq::<Datum>::empty());
        assert(items_tail(rest) =~= Seq::<u8>::empty());
        assert(items_tail(items) =~= Seq::<u8>::empty());
        assert(items.push(v)[0] == v);
        assert(items_tail(items.push(v)) =~= items_tail(items) + seq![COMMA] + bytes_of(v));
    } else {
        lemma_items_tail_push(items.drop_first(), v);
        assert(items.push(v).drop_first() =~= items.drop_first().push(v));
        assert(items_tail(items.push(v)) =~= items_tail(items) + seq![COMMA] + bytes_of(v));
    }
}

/// One more entry adds a comma and its text.
proof fn lemma_entries_tail_push(entries: Seq<(Seq<char>, Datum)>, key: Seq<char>, v: Datum)
    ensures
        entries_tail(entries.push((key, v))) == entries_tail(entries) + seq![COMMA] + entry_bytes(
            key,
            v,
        ),
    decreases entries.len(),
{
    let more = entries.push((key, v));
    if entries.len() == 0 {
        let rest = more.drop_first();
        assert(rest =~= Seq::<(Seq<char>, Datum)>::empty());
        assert(entries_tail(rest) =~= Seq::<u8>::empty());
        assert(entries_tail(entries) =~= Seq::<u8>::empty());
        assert(more[0] == (key, v));
        assert(entries_tail(more) =~= entries_tail(entries) + seq![COMMA] + entry_bytes(key, v));
    } else {
        lemma_entries_tail_push(entries.drop_first(), key, v);
        assert(more.drop_first() =~= entries.drop_first().push((key, v)));
        assert(entries_tail(more) =~= entries_tail(entries) + seq![COMMA] + entry_bytes(key, v));
    }
}

/// The bytes of the texts of items parted by commas: the text of the first,
/// then each of the others behind a comma.
proof fn lemma_render_items_bytes(items: Seq<Datum>)
    requires
        items.len() > 0,
    ensures
        encode_utf8(render_items(items)) == bytes_of(items[0]) + items_tail(items.drop_first()),
    decreases items.len(),
{
    lemma_word_bytes();
    if items.len() == 1 {
        assert(items.drop_first() =~= Seq::<Datum>::empty());
        assert(bytes_of(items[0]) + items_tail(items.drop_first()) =~= bytes_of(items[0]));
    } else {
        let front = items.drop_last();
        lemma_render_items_bytes(front);
        lemma_encode_concat(render_items(front) + ","@, render(items.last()));
        lemma_encode_concat(render_items(front), ","@);
        lemma_items_tail_push(front.drop_first(), items.last());
        assert(items.drop_first() =~= front.drop_first().push(items.last()));
        assert(encode_utf8(render_items(items)) =~= bytes_of(items[0]) + items_tail(
            items.drop_first(),
        ));
    }
}

/// The bytes of the text of an entry.
proof fn lemma_render_entry_bytes(key: Seq<char>, v: Datum)
    ensures
        encode_utf8(render_entry(key, v)) == entry_bytes(key, v),
{
    lemma_word_bytes();
    lemma_encode_concat("\""@ + key + "\":"@, render(v));
    lemma_encode_concat("\""@ + key, "\":"@);
    lemma_encode_concat("\""@, key);
}

/// The bytes of the texts of entries parted by commas: the text of the
/// first, then each of the others behind a comma.
proof fn lemma_render_entries_bytes(entries: Seq<(Seq<char>, Datum)>)
    requires
        entries.len() > 0,
    ensures
        encode_utf8(render_entries(entries)) == entry_bytes(entries[0].0, entries[0].1)
            + entries_tail(entries.drop_first()),
    decreases entries.len(),
{
    lemma_word_bytes();
    let first = entry_bytes(entries[0].0, entries[0].1);
    if entries.len() == 1 {
        lemma_render_entry_bytes(entries[0].0, entries[0].1);
        assert(entries.drop_first() =~= Seq::<(Seq<char>, Datum)>::empty());
        assert(first + entries_tail(entries.drop_first()) =~= first);
    } else {
        let front = entries.drop_last();
        let last = entries.last();
        lemma_render_entries_bytes(front);
        lemma_render_entry_bytes(last.0, last.1);
        lemma_encode_concat(render_entries(front) + ","@, render_entry(last.0, last.1));
        lemma_encode_concat(render_entries(front), ","@);
        lemma_entries_tail_push(front.drop_first(), last.0, last.1);
        assert(entries.drop_first() =~= front.drop_first().push(last));
        assert(encode_utf8(render_entries(entries)) =~= first + entries_tail(
            entries.drop_first(),
        ));
    }
}

/// No value stands where a byte stands that closes or parts values.
proof fn lemma_no_value_at_stop(s: Seq<u8>, p: int)
    requires
        0 <= p < s.len(),
        is_stop(s[p]),
    ensures
        value_at(s, p) is None,
        entry_at(s, p) is None,
{
    lemma_not_number(s, p);
    lemma_not_bool(s, p);
    lemma_not_binary(s, p);
    assert(spaces(s, p) == 0);
}

/// The canonical text of a readable value is read back as the value,
/// wherever it stands before the end of a text or before a byte that closes
/// or parts values.
pub proof fn lemma_value_reads_back(v: Datum, s: Seq<u8>, p: int)
    requires
        readable(v),
        stands_at(s, p, bytes_of(v)),
        stops_at(s, p + bytes_of(v).len()),
    ensures
        bare_value_at(s, p) == Some((v, bytes_of(v).len())),
        value_at(s, p) == Some((v, bytes_of(v).len())),
        bytes_of(v).len() > 0,
        !is_space(s[p]),
        s[p] == 0x62 ==> v is Binary,
    decreases v, 1nat,
{
    match v {
        Datum::Null => {},
        Datum::String(t) => {
            lemma_string_reads_back(t, s, p);
            lemma_not_number(s, p);
            lemma_not_bool(s, p);
        },
        Datum::Number(t) => {
            lemma_number_reads_back(t, s, p);
        },
        Datum::Boolean(truth) => {
            lemma_bool_reads_back(truth, s, p);
        },
        Datum::List(items) => {
            lemma_list_reads_back(v, s, p);
        },
        Datum::Dict(entries) => {
            lemma_dict_reads_back(v, s, p);
        },
        Datum::Tuple(first, second) => {
            lemma_tuple_reads_back(v, s, p);
        },
        Datum::Binary(d) => {
            lemma_binary_reads_back(d, s, p);
        },
    }
    assert(spaces(s, p) == 0);
    assert(spaces(s, p + bytes_of(v).len()) == 0);
}

/// How the bytes of the text of a list, a dictionary or another text
/// between two bytes lie in `s`.
proof fn lemma_enclosed_layout(s: Seq<u8>, p: int, open: u8, inner: Seq<u8>, close: u8)
    requires
        stands_at(s, p, seq![open] + inner + seq![close]),
    ensures
        0 <= p,
        p + inner.len() + 2 <= s.len(),
        s[p] == open,
        stands_at(s, p + 1, inner),
        s[p + 1 + inner.len()] == close,
        (seq![open] + inner + seq![close]).len() == inner.len() + 2,
{
    let whole = seq![open] + inner + seq![close];
    lemma_stands_byte(s, p, whole, 0);
    lemma_stands_byte(s, p, whole, 1 + inner.len() as int);
    assert(whole.subrange(1, 1 + inner.len() as int) =~= inner);
    lemma_stands_part(s, p, whole, 1, inner);
}

/// The bytes of the text of a list.
proof fn lemma_list_bytes(items: Seq<Datum>)
    ensures
        bytes_of(Datum::List(items)) == seq![OPEN_BRACKET] + encode_utf8(render_items(items))
            + seq![CLOSE_BRACKET],
{
    lemma_word_bytes();
    lemma_encode_concat("["@ + render_items(items), "]"@);
    lemma_encode_concat("["@, render_items(items));
}

/// The bytes of the text of a dictionary.
proof fn lemma_dict_bytes(entries: Seq<(Seq<char>, Datum)>)
    ensures
        bytes_of(Datum::Dict(entries)) == seq![OPEN_BRACE] + encode_utf8(render_entries(entries))
            + seq![CLOSE_BRACE],
{
    lemma_word_bytes();
    lemma_encode_concat("{"@ + render_entries(entries), "}"@);
    lemma_encode_concat("{"@, render_entries(entries));
}

/// The bytes of the text of a tuple.
proof fn lemma_tuple_bytes(first: Datum, second: Datum)
    ensures
        bytes_of(Datum::Tuple(Box::new(first), Box::new(second))) == seq![OPEN_PAREN] + (bytes_of(
            first,
        ) + seq![COMMA, 0x20u8] + bytes_of(second)) + seq![CLOSE_PAREN],
{
    lemma_word_bytes();
    lemma_encode_concat("("@ + render(first) + ", "@ + render(second), ")"@);
    lemma_encode_concat("("@ + render(first) + ", "@, render(second));
    lemma_encode_concat("("@ + render(first), ", "@);
    lemma_encode_concat("("@, render(first));
    let a = bytes_of(first);
    let b = bytes_of(second);
    assert(seq![OPEN_PAREN] + a + seq![COMMA, 0x20u8] + b + seq![CLOSE_PAREN] =~= seq![OPEN_PAREN]
        + (a + seq![COMMA, 0x20u8] + b) + seq![CLOSE_PAREN]);
}

/// How two texts with a comma and a space between them lie in `s`.
proof fn lemma_pair_layout(s: Seq<u8>, q: int, a: Seq<u8>, b: Seq<u8>)
    requires
        stands_at(s, q, a + seq![COMMA, 0x20u8] + b),
    ensures
        stands_at(s, q, a),
        s[q + a.len()] == COMMA,
        s[q + a.len() + 1] == 0x20,
        stands_at(s, q + a.len() + 2, b),
        (a + seq![COMMA, 0x20u8] + b).len() == a.len() + b.len() + 2,
{
    let whole = a + seq![COMMA, 0x20u8] + b;
    lemma_stands_byte(s, q, whole, a.len() as int);
    lemma_stands_byte(s, q, whole, a.len() as int + 1);
    assert(whole.subrange(0, a.len() as int) =~= a);
    lemma_stands_part(s, q, whole, 0, a);
    assert(whole.subrange(a.len() as int + 2, a.len() as int + 2 + b.len() as int) =~= b);
    lemma_stands_part(s, q, whole, a.len() as int + 2, b);
}

/// A list is what stands where its items stand between brackets.
proof fn lemma_list_found(s: Seq<u8>, p: int, items: Seq<Datum>, n: nat)
    requires
        0 <= p,
        p + n + 2 <= s.len(),
        s[p] == OPEN_BRACKET,
        items_at(s, p + 1) == (items, n),
        s[p + 1 + n] == CLOSE_BRACKET,
    ensures
        bare_value_at(s, p) == Some((Datum::List(items), n + 2)),
{
    lemma_not_number(s, p);
    lemma_not_bool(s, p);
    assert(list_at(s, p) == Some((items, n + 2)));
}

/// A dictionary is what stands where its entries stand between braces.
proof fn lemma_dict_found(s: Seq<u8>, p: int, entries: Seq<(Seq<char>, Datum)>, n: nat)
    requires
        0 <= p,
        p + n + 2 <= s.len(),
        s[p] == OPEN_BRACE,
        entries_at(s, p + 1) == (entries, n),
        s[p + 1 + n] == CLOSE_BRACE,
    ensures
        bare_value_at(s, p) == Some((Datum::Dict(entries), n + 2)),
{
    lemma_not_number(s, p);
    lemma_not_bool(s, p);
    assert(list_at(s, p) is None);
    assert(dict_at(s, p) == Some((entries, n + 2)));
}

/// A tuple is what stands where its members stand between parentheses, with
/// a comma and a space between them.
proof fn lemma_tuple_found(s: Seq<u8>, p: int, first: Datum, a: nat, second: Datum, b: nat)
    requires
        0 <= p,
        p + a + b + 4 <= s.len(),
        s[p] == OPEN_PAREN,
        value_at(s, p + 1) == Some((first, a)),
        s[p + 1 + a] == COMMA,
        s[p + 2 + a] == 0x20,
        !is_space(s[p + 3 + a]),
        bare_value_at(s, p + 3 + a) == Some((second, b)),
        s[p + 3 + a + b] == CLOSE_PAREN,
    ensures
        bare_value_at(s, p) == Some(
            (Datum::Tuple(Box::new(first), Box::new(second)), a + b + 4),
        ),
{
    lemma_not_number(s, p);
    lemma_not_bool(s, p);
    let comma = p + 1 + a;
    assert(spaces(s, comma + 2) == 0);
    assert(spaces(s, comma + 1) == 1);
    assert(spaces(s, comma + 2 + b) == 0);
    assert(value_at(s, comma + 1) == Some((second, (1 + b) as nat)));
    assert(tuple_at(s, p) == Some((first, second, a + b + 4)));
    assert(list_at(s, p) is None);
    assert(dict_at(s, p) is None);
}

/// The canonical text of a readable list is read back as the list.
proof fn lemma_list_reads_back(v: Datum, s: Seq<u8>, p: int)
    requires
        v is List,
        readable(v),
        stands_at(s, p, bytes_of(v)),
    ensures
        bare_value_at(s, p) == Some((v, bytes_of(v).len())),
        s[p] == OPEN_BRACKET,
    decreases v, 0nat,
{
    let items = v->List_0;
    let inner = encode_utf8(render_items(items));
    lemma_list_bytes(items);
    lemma_enclosed_layout(s, p, OPEN_BRACKET, inner, CLOSE_BRACKET);
    lemma_items_read_back(items, s, p + 1);
    lemma_list_found(s, p, items, inner.len());
}

/// The canonical text of a readable dictionary is read back as the
/// dictionary.
proof fn lemma_dict_reads_back(v: Datum, s: Seq<u8>, p: int)
    requires
        v is Dict,
        readable(v),
        stands_at(s, p, bytes_of(v)),
    ensures
        bare_value_at(s, p) == Some((v, bytes_of(v).len())),
        s[p] == OPEN_BRACE,
    decreases v, 0nat,
{
    let entries = v->Dict_0;
    let inner = encode_utf8(render_entries(entries));
    lemma_dict_bytes(entries);
    lemma_enclosed_layout(s, p, OPEN_BRACE, inner, CLOSE_BRACE);
    lemma_entries_read_back(entries, s, p + 1);
    lemma_dict_found(s, p, entries, inner.len());
}

/// The canonical text of a readable tuple is read back as the tuple.
proof fn lemma_tuple_reads_back(v: Datum, s: Seq<u8>, p: int)
    requires
        v is Tuple,
        readable(v),
        stands_at(s, p, bytes_of(v)),
    ensures
        bare_value_at(s, p) == Some((v, bytes_of(v).len())),
        s[p] == OPEN_PAREN,
    decreases v, 0nat,
{
    let first = *v->Tuple_0;
    let second = *v->Tuple_1;
    let a = bytes_of(first);
    let b = bytes_of(second);
    let inner = a + seq![COMMA, 0x20u8] + b;
    lemma_tuple_bytes(first, second);
    lemma_enclosed_layout(s, p, OPEN_PAREN, inner, CLOSE_PAREN);
    lemma_pair_layout(s, p + 1, a, b);
    lemma_value_reads_back(first, s, p + 1);
    lemma_value_reads_back(second, s, p + 3 + a.len());
    lemma_tuple_found(s, p, first, a.len(), second, b.len());
}

/// The texts of readable items, parted by commas and before a closing
/// bracket, are read back as the items.
proof fn lemma_items_read_back(items: Seq<Datum>, s: Seq<u8>, q: int)
    requires
        readable_items(items),
        stands_at(s, q, encode_utf8(render_items(items))),
        q + encode_utf8(render_items(items)).len() < s.len(),
        s[q + encode_utf8(render_items(items)).len()] == CLOSE_BRACKET,
    ensures
        items_at(s, q) == (items, encode_utf8(render_items(items)).len()),
    decreases items, 2nat,
{
    let inner = encode_utf8(render_items(items));
    if items.len() == 0 {
        assert(render_items(items) =~= Seq::<char>::empty());
        assert(inner =~= Seq::<u8>::empty());
        lemma_no_value_at_stop(s, q);
        assert(items =~= Seq::<Datum>::empty());
    } else {
        lemma_render_items_bytes(items);
        let head = bytes_of(items[0]);
        let rest = items.drop_first();
        let tail = items_tail(rest);
        assert(inner.subrange(0, head.len() as int) =~= head);
        lemma_stands_part(s, q, inner, 0, head);
        assert(inner.subrange(head.len() as int, head.len() as int + tail.len() as int) =~= tail);
        lemma_stands_part(s, q, inner, head.len() as int, tail);
        if rest.len() > 0 {
            assert(tail[0] == COMMA);
            lemma_stands_byte(s, q + head.len(), tail, 0);
        }
        lemma_value_reads_back(items[0], s, q);
        lemma_more_items_read_back(s, q + head.len(), seq![items[0]], head.len(), rest);
        assert(seq![items[0]] + rest =~= items);
    }
}

/// The texts of readable items, each behind a comma and all before a closing
/// bracket, are read back as the items.
proof fn lemma_more_items_read_back(
    s: Seq<u8>,
    i: int,
    read: Seq<Datum>,
    taken: nat,
    rest: Seq<Datum>,
)
    requires
        readable_items(rest),
        stands_at(s, i, items_tail(rest)),
        i + items_tail(rest).len() < s.len(),
        s[i + items_tail(rest).len()] == CLOSE_BRACKET,
    ensures
        more_items_at(s, i, read, taken) == (read + rest, taken + items_tail(rest).len()),
    decreases rest, 1nat,
{
    let tail = items_tail(rest);
    if rest.len() == 0 {
        assert(read + rest =~= read);
    } else {
        let head = bytes_of(rest[0]);
        let more = rest.drop_first();
        let after = items_tail(more);
        assert(tail == seq![COMMA] + head + after);
        lemma_stands_byte(s, i, tail, 0);
        assert(tail.subrange(1, 1 + head.len() as int) =~= head);
        lemma_stands_part(s, i, tail, 1, head);
        assert(tail.subrange(1 + head.len() as int, 1 + head.len() as int + after.len() as int)
            =~= after);
        lemma_stands_part(s, i, tail, 1 + head.len() as int, after);
        if more.len() > 0 {
            assert(after[0] == COMMA);
            lemma_stands_byte(s, i + 1 + head.len(), after, 0);
        }
        lemma_value_reads_back(rest[0], s, i + 1);
        lemma_more_items_read_back(
            s,
            i + 1 + head.len(),
            read.push(rest[0]),
            taken + 1 + head.len(),
            more,
        );
        assert(read.push(rest[0]) + more =~= read + rest);
    }
}

/// How the bytes of the text of an entry lie in `s`.
proof fn lemma_entry_layout(s: Seq<u8>, i: int, key: Seq<char>, v: Datum)
    requires
        stands_at(s, i, entry_bytes(key, v)),
    ensures
        stands_at(s, i, bytes_of(Datum::String(key))),
        bytes_of(Datum::String(key)).len() == encode_utf8(key).len() + 2,
        s[i + encode_utf8(key).len() + 2] == COLON,
        stands_at(s, i + encode_utf8(key).len() + 3, bytes_of(v)),
        entry_bytes(key, v).len() == encode_utf8(key).len() + 3 + bytes_of(v).len(),
{
    lemma_word_bytes();
    let whole = entry_bytes(key, v);
    let k = encode_utf8(key);
    let b = bytes_of(v);
    let literal = bytes_of(Datum::String(key));
    lemma_encode_concat("\""@ + key, "\""@);
    lemma_encode_concat("\""@, key);
    assert(literal == seq![QUOTE] + k + seq![QUOTE]);
    assert(whole.subrange(0, literal.len() as int) =~= literal);
    lemma_stands_part(s, i, whole, 0, literal);
    lemma_stands_byte(s, i, whole, 2 + k.len() as int);
    assert(whole.subrange(3 + k.len() as int, 3 + k.len() as int + b.len() as int) =~= b);
    lemma_stands_part(s, i, whole, 3 + k.len() as int, b);
}

/// An entry is what stands where its key, a colon and its value stand.
proof fn lemma_entry_found(s: Seq<u8>, i: int, key: Seq<char>, k: nat, v: Datum, n: nat)
    requires
        0 <= i,
        i + k + 1 + n <= s.len(),
        s[i] == QUOTE,
        string_at(s, i) == Some((key, k)),
        s[i + k] == COLON,
        value_at(s, i + k + 1) == Some((v, n)),
    ensures
        entry_at(s, i) == Some((key, v, k + 1 + n)),
{
    assert(spaces(s, i) == 0);
    assert(spaces(s, i + k) == 0);
}

/// The text of an entry with a readable value is read back as the entry.
proof fn lemma_entry_reads_back(key: Seq<char>, v: Datum, s: Seq<u8>, i: int)
    requires
        is_text(key),
        readable(v),
        stands_at(s, i, entry_bytes(key, v)),
        stops_at(s, i + entry_bytes(key, v).len()),
    ensures
        entry_at(s, i) == Some((key, v, entry_bytes(key, v).len())),
    decreases v, 2nat,
{
    let k = encode_utf8(key).len();
    lemma_entry_layout(s, i, key, v);
    lemma_string_reads_back(key, s, i);
    lemma_value_reads_back(v, s, i + k + 3);
    lemma_entry_found(s, i, key, k + 2, v, bytes_of(v).len());
}

/// The texts of readable entries with distinct keys, parted by commas and
/// before a closing brace, are read back as the entries.
proof fn lemma_entries_read_back(entries: Seq<(Seq<char>, Datum)>, s: Seq<u8>, q: int)
    requires
        distinct_keys(entries),
        readable_entries(entries),
        stands_at(s, q, encode_utf8(render_entries(entries))),
        q + encode_utf8(render_entries(entries)).len() < s.len(),
        s[q + encode_utf8(render_entries(entries)).len()] == CLOSE_BRACE,
    ensures
        entries_at(s, q) == (entries, encode_utf8(render_entries(entries)).len()),
    decreases entries, 3nat,
{
    let inner = encode_utf8(render_entries(entries));
    if entries.len() == 0 {
        assert(render_entries(entries) =~= Seq::<char>::empty());
        assert(inner =~= Seq::<u8>::empty());
        lemma_no_value_at_stop(s, q);
        assert(entries =~= Seq::<(Seq<char>, Datum)>::empty());
    } else {
        lemma_render_entries_bytes(entries);
        let head = entry_bytes(entries[0].0, entries[0].1);
        let rest = entries.drop_first();
        let tail = entries_tail(rest);
        assert(inner.subrange(0, head.len() as int) =~= head);
        lemma_stands_part(s, q, inner, 0, head);
        assert(inner.subrange(head.len() as int, head.len() as int + tail.len() as int) =~= tail);
        lemma_stands_part(s, q, inner, head.len() as int, tail);
        if rest.len() > 0 {
            assert(tail[0] == COMMA);
            lemma_stands_byte(s, q + head.len(), tail, 0);
        }
        lemma_entry_reads_back(entries[0].0, entries[0].1, s, q);
        assert(seq![entries[0]] + rest =~= entries);
        lemma_more_entries_read_back(s, q + head.len(), seq![entries[0]], head.len(), rest);
    }
}

/// The texts of readable entries with new keys, each behind a comma and all
/// before a closing brace, are read back as the entries.
proof fn lemma_more_entries_read_back(
    s: Seq<u8>,
    i: int,
    read: Seq<(Seq<char>, Datum)>,
    taken: nat,
    rest: Seq<(Seq<char>, Datum)>,
)
    requires
        distinct_keys(read + rest),
        readable_entries(rest),
        stands_at(s, i, entries_tail(rest)),
        i + entries_tail(rest).len() < s.len(),
        s[i + entries_tail(rest).len()] == CLOSE_BRACE,
    ensures
        more_entries_at(s, i, read, taken) == (read + rest, taken + entries_tail(rest).len()),
    decreases rest, 2nat,
{
    let tail = entries_tail(rest);
    if rest.len() == 0 {
        assert(read + rest =~= read);
    } else {
        let head = entry_bytes(rest[0].0, rest[0].1);
        let more = rest.drop_first();
        let after = entries_tail(more);
        assert(tail == seq![COMMA] + head + after);
        lemma_stands_byte(s, i, tail, 0);
        assert(tail.subrange(1, 1 + head.len() as int) =~= head);
        lemma_stands_part(s, i, tail, 1, head);
        assert(tail.subrange(1 + head.len() as int, 1 + head.len() as int + after.len() as int)
            =~= after);
        lemma_stands_part(s, i, tail, 1 + head.len() as int, after);
        if more.len() > 0 {
            assert(after[0] == COMMA);
            lemma_stands_byte(s, i + 1 + head.len(), after, 0);
        }
        lemma_entry_reads_back(rest[0].0, rest[0].1, s, i + 1);
        let all = read + rest;
        assert forall|j: int| 0 <= j < read.len() implies (#[trigger] read[j]).0 != rest[0].0 by {
            assert(all[j] == read[j]);
            assert(all[read.len() as int] == rest[0]);
        }
        lemma_with_entry_new(read, rest[0].0, rest[0].1);
        assert(read.push(rest[0]) + more =~= read + rest);
        lemma_more_entries_read_back(
            s,
            i + 1 + head.len(),
            read.push(rest[0]),
            taken + 1 + head.len(),
            more,
        );
    }
}

/// The canonical text of the absent value denotes the absent value.
pub proof fn lemma_none_reads_back()
    ensures
        denoted(bytes_of(Datum::Null)) == Datum::Null,
{
    lemma_word_bytes();
    let s = bytes_of(Datum::Null);
    assert(s[0int + 1] == 0x6f);
    assert(s[0int + 0] == 0x6e);
    assert(encode_utf8("nan"@)[1] == 0x61);
    assert(encode_utf8("inf"@)[0] == 0x69);
    assert(!has_word_any_case(s, 0, "nan"@));
    assert(!has_word_any_case(s, 0, "inf"@));
    assert(number_at(s, 0) is None);
    lemma_not_bool(s, 0);
    lemma_not_binary(s, 0);
    assert(spaces(s, 0) == 0);
    assert(bare_value_at(s, 0) is None);
}

/// Reading back the canonical text of a value gives the value again, and so
/// a value with the same canonical text. This holds of the absent value and
/// of every readable value.
pub proof fn lemma_text_round_trip(v: Datum)
    requires
        v is Null || readable(v),
    ensures
        denoted(bytes_of(v)) == v,
        render(denoted(bytes_of(v))) == render(v),
{
    let s = bytes_of(v);
    if v is Null {
        lemma_none_reads_back();
    } else {
        assert(s.subrange(0, s.len() as int) =~= s);
        lemma_value_reads_back(v, s, 0);
        if v is Binary {
            lemma_word_bytes();
            let d = v->Binary_0;
            lemma_encode_concat("binary!("@ + base64_text(d), ")"@);
            lemma_encode_concat("binary!("@, base64_text(d));
            assert(s[1] == 0x69);
        }
        assert(!is_envelope(s));
    }
}

} // verus!
