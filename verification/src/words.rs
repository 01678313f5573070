//! Turning a spelling into its letter set.

use crate::letters::{
    bit_count, is_lower, lemma_bit_count_bound, lemma_bit_count_letter, lemma_bit_count_union,
    letter_bit, valid_word, word_bits, WordBitmap, LETTER_MASK,
};
use vstd::prelude::*;
use vstd::string::StringSliceAdditionalSpecFns;

verus! {

/// The byte of the letter `a`.
pub const LOWER_A: u8 = 97;

/// The byte of the letter `z`.
pub const LOWER_Z: u8 = 122;

/// The letter set of `s`, where `s` is five distinct lowercase letters.
/// Any other text has no letter set.
pub fn get_valid_word(s: &str) -> (r: Option<WordBitmap>)
    ensures
        r == if valid_word(s.spec_bytes()) {
            Some(WordBitmap(word_bits(s.spec_bytes())))
        } else {
            None
        },
        r matches Some(w) ==> w.is_word() && w.0 != 0,
{
    let bytes = s.as_bytes();
    let mut bitmap: u32 = 0;
    let mut i: usize = 0;
    proof {
        assert(bytes@.take(0).len() == 0);
    }
    while i < bytes.len()
        invariant
            i <= bytes@.len(),
            bytes@ == s.spec_bytes(),
            forall|j: int| 0 <= j < i ==> is_lower(#[trigger] bytes@[j]),
            forall|j: int, k: int| 0 <= j < k < i ==> bytes@[j] != bytes@[k],
            bitmap == word_bits(bytes@.take(i as int)),
            bit_count(bitmap) == i,
            bitmap <= LETTER_MASK,
        decreases bytes.len() - i,
    {
        let c = bytes[i];
        if c < LOWER_A || c > LOWER_Z {
            return None;
        }
        let letter_number: u32 = (c - LOWER_A) as u32;
        let mask: u32 = 1u32 << letter_number;
        proof {
            let prefix = bytes@.take(i as int);
            lemma_word_bits_member(prefix, c);
            assert(bytes@.take(i + 1).drop_last() =~= prefix);
            lemma_bit_count_letter(letter_number);
            lemma_bit_count_bound(bitmap | mask);
            if mask & bitmap == 0 {
                assert(bitmap & mask == 0) by (bit_vector)
                    requires
                        mask & bitmap == 0,
                ;
                lemma_bit_count_union(bitmap, mask);
                assert forall|j: int| 0 <= j < i implies bytes@[j] != c by {
                    assert(prefix[j] == bytes@[j]);
                }
            } else {
                let j = choose|j: int| 0 <= j < prefix.len() && prefix[j] == c;
                assert(bytes@[j] == bytes@[i as int]);
            }
            assert(letter_number < 26 && bitmap <= 0x03ff_ffffu32 ==> (bitmap | (1u32
                << letter_number)) <= 0x03ff_ffffu32) by (bit_vector);
        }
        if mask & bitmap != 0 {
            return None;
        }
        bitmap = bitmap | mask;
        i += 1;
    }
    proof {
        assert(bytes@.take(i as int) =~= bytes@);
        assert(bit_count(0) == 0);
    }
    if WordBitmap(bitmap).letter_count() != 5 {
        return None;
    }
    if bitmap == 0 {
        return None;
    }
    Some(WordBitmap(bitmap))
}

/// A letter's bit is in the bits of a text exactly when the text holds the letter.
pub proof fn lemma_word_bits_member(b: Seq<u8>, c: u8)
    requires
        forall|j: int| 0 <= j < b.len() ==> is_lower(#[trigger] b[j]),
        is_lower(c),
    ensures
        (letter_bit(c) & word_bits(b) != 0) <==> (exists|j: int| 0 <= j < b.len() && b[j] == c),
    decreases b.len(),
{
    let m = letter_bit(c);
    if b.len() == 0 {
        assert(m & 0 == 0) by (bit_vector);
    } else {
        let front = b.drop_last();
        let last = b.last();
        lemma_word_bits_member(front, c);
        let a = word_bits(front);
        let l = letter_bit(last);
        assert((m & (a | l) != 0) <==> (m & a != 0 || m & l != 0)) by (bit_vector);
        let x: u32 = (c - 97) as u32;
        let y: u32 = (last - 97) as u32;
        assert(x < 26 && y < 26 ==> (((1u32 << x) & (1u32 << y) != 0) <==> x == y)) by (bit_vector);
        if m & word_bits(b) != 0 {
            if m & a != 0 {
                let j = choose|j: int| 0 <= j < front.len() && front[j] == c;
                assert(b[j] == c);
            } else {
                assert(b[b.len() - 1] == c);
            }
        }
        if exists|j: int| 0 <= j < b.len() && b[j] == c {
            let j = choose|j: int| 0 <= j < b.len() && b[j] == c;
            if j < b.len() - 1 {
                assert(front[j] == c);
            }
        }
    }
}

} // verus!
