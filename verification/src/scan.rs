//! Reading the bytes of a text: whitespace, words, and slices of the text.

use crate::grammar::{has_word, has_word_any_case, is_space, lower, spaces};
use vstd::prelude::*;
use vstd::slice::*;
use vstd::string::*;
use vstd::utf8::*;

verus! {

/// In a text in UTF-8, a character begins behind every ASCII byte.
pub proof fn lemma_boundary_after_ascii(s: Seq<u8>, k: int)
    requires
        valid_utf8(s),
        0 <= k < s.len(),
        s[k] < 0x80,
    ensures
        is_char_boundary(s, k),
        is_char_boundary(s, k + 1),
{
    is_char_boundary_iff_not_is_continuation_byte(s, k);
    valid_utf8_split(s, k);
    let t = s.subrange(k, s.len() as int);
    assert(t[0] == s[k]);
    assert(valid_utf8(t));
    assert(valid_first_scalar(t) && valid_utf8(pop_first_scalar(t)));
    let u = s.subrange(k + 1, s.len() as int);
    assert(pop_first_scalar(t) =~= u);
    if k + 1 == s.len() {
        is_char_boundary_start_end_of_seq(s);
    } else {
        assert(u[0] == s[k + 1]);
        assert(valid_first_scalar(u));
        is_char_boundary_iff_is_leading_byte(s, k + 1);
    }
}

/// A boundary of a text is a boundary of each part of it that ends at a
/// later boundary.
pub proof fn lemma_boundary_in_prefix(s: Seq<u8>, from: int, to: int)
    requires
        valid_utf8(s),
        0 <= from <= to <= s.len(),
        is_char_boundary(s, from),
        is_char_boundary(s, to),
    ensures
        valid_utf8(s.subrange(0, to)),
        is_char_boundary(s.subrange(0, to), from),
{
    valid_utf8_split(s, to);
    let head = s.subrange(0, to);
    if from == to {
        is_char_boundary_start_end_of_seq(head);
    } else {
        is_char_boundary_iff_not_is_continuation_byte(s, from);
        is_char_boundary_iff_not_is_continuation_byte(head, from);
    }
}

/// The part of `text` between two of its character boundaries, given by
/// their byte positions.
pub fn slice_text(text: &str, from: usize, to: usize) -> (r: &str)
    requires
        from <= to <= text.spec_bytes().len(),
        is_char_boundary(text.spec_bytes(), from as int),
        is_char_boundary(text.spec_bytes(), to as int),
    ensures
        r.spec_bytes() == text.spec_bytes().subrange(from as int, to as int),
        r@ == decode_utf8(text.spec_bytes().subrange(from as int, to as int)),
{
    broadcast use {encode_utf8_valid_utf8, encode_utf8_decode_utf8};

    let ghost s = text.spec_bytes();
    proof {
        lemma_boundary_in_prefix(s, from as int, to as int);
    }
    let (head, _) = text.split_at(to);
    let (_, piece) = head.split_at(from);
    assert(piece.spec_bytes() =~= s.subrange(from as int, to as int));
    piece
}

/// The position behind the whitespace that stands at `pos`.
pub fn skip_spaces(bytes: &[u8], pos: usize) -> (end: usize)
    requires
        pos <= bytes@.len(),
    ensures
        end == pos + spaces(bytes@, pos as int),
        end <= bytes@.len(),
{
    let mut cur = pos;
    while cur < bytes.len() && is_space_byte(bytes[cur])
        invariant
            pos <= cur <= bytes@.len(),
            spaces(bytes@, pos as int) == (cur - pos) + spaces(bytes@, cur as int),
        decreases bytes@.len() - cur,
    {
        cur += 1;
    }
    cur
}

/// Tells whether `b` is a whitespace byte.
pub fn is_space_byte(b: u8) -> (r: bool)
    ensures
        r == is_space(b),
{
    b == 0x20 || b == 0x09 || b == 0x0d || b == 0x0a
}

/// An upper-case ASCII letter as its lower-case letter, any other byte as it is.
pub fn lower_byte(b: u8) -> (r: u8)
    ensures
        r == lower(b),
{
    if 0x41 <= b && b <= 0x5a {
        b + 0x20
    } else {
        b
    }
}

/// Tells whether `word` stands at `pos`.
pub fn starts_with(bytes: &[u8], pos: usize, word: &str) -> (r: bool)
    requires
        pos <= bytes@.len(),
    ensures
        r == has_word(bytes@, pos as int, word@),
{
    let w = word.as_bytes();
    if w.len() > bytes.len() - pos {
        return false;
    }
    let mut k: usize = 0;
    while k < w.len()
        invariant
            k <= w@.len(),
            pos + w@.len() <= bytes@.len() <= usize::MAX,
            w@ == encode_utf8(word@),
            forall|j: int| 0 <= j < k ==> bytes@[pos + j] == w@[j],
        decreases w@.len() - k,
    {
        if bytes[pos + k] != w[k] {
            proof {
                let part = bytes@.subrange(pos as int, pos + w@.len());
                assert(part[k as int] == bytes@[pos + k]);
            }
            return false;
        }
        k += 1;
    }
    assert(bytes@.subrange(pos as int, pos + w@.len()) =~= w@);
    true
}

/// Tells whether `word` stands at `pos` in upper or lower case.
pub fn starts_with_any_case(bytes: &[u8], pos: usize, word: &str) -> (r: bool)
    requires
        pos <= bytes@.len(),
    ensures
        r == has_word_any_case(bytes@, pos as int, word@),
{
    let w = word.as_bytes();
    if w.len() > bytes.len() - pos {
        return false;
    }
    let mut k: usize = 0;
    while k < w.len()
        invariant
            k <= w@.len(),
            pos + w@.len() <= bytes@.len() <= usize::MAX,
            w@ == encode_utf8(word@),
            forall|j: int| 0 <= j < k ==> lower(#[trigger] bytes@[pos + j]) == lower(w@[j]),
        decreases w@.len() - k,
    {
        if lower_byte(bytes[pos + k]) != lower_byte(w[k]) {
            return false;
        }
        k += 1;
    }
    true
}

/// Tells whether two texts are the same.
pub fn same_text(a: &str, b: &str) -> (r: bool)
    ensures
        r == (a@ == b@),
{
    broadcast use encode_utf8_decode_utf8;

    let x = a.as_bytes();
    let y = b.as_bytes();
    if x.len() != y.len() {
        return false;
    }
    let mut k: usize = 0;
    while k < x.len()
        invariant
            k <= x@.len(),
            x@.len() == y@.len(),
            x@ == encode_utf8(a@),
            y@ == encode_utf8(b@),
            forall|j: int| 0 <= j < k ==> x@[j] == y@[j],
        decreases x@.len() - k,
    {
        if x[k] != y[k] {
            return false;
        }
        k += 1;
    }
    assert(x@ =~= y@);
    assert(decode_utf8(encode_utf8(a@)) == decode_utf8(encode_utf8(b@)));
    true
}

} // verus!
