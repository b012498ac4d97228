//! Index arithmetic for the fixed 26-letter alphabet.
//!
//! The alphabet is the uppercase letters `'A'` through `'Z'`, in
//! order; every positional computation in the cipher is done on
//! alphabet indices `0..26`, modulo 26.

use vstd::prelude::*;

verus! {

/// Alphabet index of an uppercase letter, as a mathematical integer.
pub open spec fn char_to_pos(c: char) -> int {
    (c as u32) - 65
}

/// The uppercase letter standing at a given alphabet index.
pub open spec fn pos_to_char(p: int) -> char {
    ((p + 65) as u8) as char
}

/// Whether a character is one of the 26 alphabet symbols.
pub open spec fn is_letter(c: char) -> bool {
    65 <= (c as u32) <= 90
}

/// A message may hold alphabet symbols and spaces, nothing else.
pub open spec fn is_message_char(c: char) -> bool {
    is_letter(c) || c == ' '
}

pub proof fn lemma_pos_char(p: int)
    requires
        0 <= p < 26,
    ensures
        is_letter(pos_to_char(p)),
        char_to_pos(pos_to_char(p)) == p,
        pos_to_char(p) != ' ',
{
    assert((p + 65) as u8 == p + 65);
    assert(pos_to_char(p) as u32 == p + 65);
}

pub proof fn lemma_char_pos(c: char)
    requires
        is_letter(c),
    ensures
        0 <= char_to_pos(c) < 26,
        pos_to_char(char_to_pos(c)) == c,
{
    let u: u32 = c as u32;
    assert((char_to_pos(c) + 65) as u8 == u as u8);
    assert((u as u8) as char as u32 == u);
    vstd::utf8::char_u32_cast(c, u);
}

pub proof fn lemma_char_to_pos_injective(a: char, b: char)
    requires
        is_letter(a),
        is_letter(b),
        char_to_pos(a) == char_to_pos(b),
    ensures
        a == b,
{
    lemma_char_pos(a);
    lemma_char_pos(b);
}

/// Alphabet index of a letter.
pub fn letter_index(c: char) -> (p: usize)
    requires
        is_letter(c),
    ensures
        p as int == char_to_pos(c),
        p < 26,
{
    ((c as u32) - 65) as usize
}

/// The letter at an alphabet index.
pub fn letter_at(p: usize) -> (c: char)
    requires
        p < 26,
    ensures
        c == pos_to_char(p as int),
{
    ((p as u8) + 65) as char
}

/// Runtime test for membership in the alphabet.
pub fn is_letter_char(c: char) -> (b: bool)
    ensures
        b == is_letter(c),
{
    let u: u32 = c as u32;
    65 <= u && u <= 90
}

} // verus!
