//! Letter sets: one bit per letter of the alphabet, `a` in bit 0.

use vstd::prelude::*;

verus! {

/// Every bit that stands for a letter.
pub const LETTER_MASK: u32 = 0x03ff_ffff;

/// Number of bits set in `x`.
pub open spec fn bit_count(x: u32) -> nat
    decreases x,
{
    if x == 0 {
        0
    } else {
        (x % 2) as nat + bit_count(x / 2)
    }
}

/// The bit that stands for the lowercase letter `c`.
pub open spec fn letter_bit(c: u8) -> u32
    recommends
        is_lower(c),
{
    1u32 << ((c - 97) as u32)
}

/// `c` is one of `a` to `z`.
pub open spec fn is_lower(c: u8) -> bool {
    97 <= c <= 122
}

/// The bits of all the letters in `b`.
pub open spec fn word_bits(b: Seq<u8>) -> u32
    decreases b.len(),
{
    if b.len() == 0 {
        0
    } else {
        word_bits(b.drop_last()) | letter_bit(b.last())
    }
}

/// A usable word: five lowercase letters, no letter twice.
pub open spec fn valid_word(b: Seq<u8>) -> bool {
    &&& b.len() == 5
    &&& forall|i: int| 0 <= i < b.len() ==> is_lower(#[trigger] b[i])
    &&& forall|i: int, j: int| 0 <= i < j < b.len() ==> b[i] != b[j]
}

/// The letters of a word, or of the words chosen so far, as a bit set.
#[derive(Clone, Copy, PartialEq, Eq, Structural, PartialOrd, Ord, Debug, Hash)]
pub struct WordBitmap(pub u32);

impl WordBitmap {
    /// Five letters, all of them within the alphabet.
    pub open spec fn is_word(self) -> bool {
        bit_count(self.0) == 5 && self.0 <= LETTER_MASK
    }

    /// Whether the two sets share a letter.
    pub fn overlaps(self, other: WordBitmap) -> (r: bool)
        ensures
            r == (self.0 & other.0 != 0),
    {
        self.0 & other.0 != 0
    }

    /// Takes every letter of `other` out of `self`.
    pub fn remove(&mut self, other: WordBitmap)
        ensures
            final(self).0 == old(self).0 & !other.0,
    {
        self.0 = self.0 & !other.0;
    }

    /// Adds every letter of `rhs` to `self`.
    pub fn bitor_assign(&mut self, rhs: WordBitmap)
        ensures
            final(self).0 == old(self).0 | rhs.0,
    {
        self.0 = self.0 | rhs.0;
    }

    /// The set that holds the letters of both.
    pub fn union(self, other: WordBitmap) -> (r: WordBitmap)
        ensures
            r.0 == self.0 | other.0,
    {
        WordBitmap(self.0 | other.0)
    }

    /// How many letters the set holds.
    pub fn letter_count(self) -> (n: u32)
        ensures
            n == bit_count(self.0),
    {
        let mut rest: u32 = self.0;
        let mut n: u32 = 0;
        proof {
            lemma_bit_count_bound(rest);
        }
        while rest != 0
            invariant
                n + bit_count(rest) == bit_count(self.0),
                n + bit_count(rest) <= 32,
            decreases rest,
        {
            n = n + rest % 2;
            rest = rest / 2;
        }
        n
    }

    /// Whether the set holds the letter with number `k`, where `a` is 0.
    pub open spec fn has(self, k: u32) -> bool {
        k < 32 && (self.0 >> k) & 1 == 1
    }

    /// The letters of the set as bytes, `a` first. A bit above the alphabet
    /// gives the byte that follows `z` by as much.
    pub fn letters(self) -> (r: Vec<u8>)
        ensures
            forall|i: int, j: int| #![trigger r@[i], r@[j]] 0 <= i < j < r@.len() ==> r@[i] < r@[j],
            forall|i: int| 0 <= i < r@.len() ==> 97 <= #[trigger] r@[i] < 129,
            forall|k: u32| k < 32 ==> (r@.contains((97 + k) as u8) <==> #[trigger] self.has(k)),
    {
        let mut t: u32 = self.0;
        let mut r: Vec<u8> = Vec::new();
        while t != 0
            invariant
                forall|i: int, j: int|
                    #![trigger r@[i], r@[j]]
                    0 <= i < j < r@.len() ==> r@[i] < r@[j],
                forall|i: int| 0 <= i < r@.len() ==> 97 <= #[trigger] r@[i] < 129,
                forall|k: u32|
                    k < 32 ==> ((r@.contains((97 + k) as u8) || WordBitmap(t).has(k))
                        <==> #[trigger] self.has(k)),
                forall|i: int, k: u32|
                    0 <= i < r@.len() && #[trigger] WordBitmap(t).has(k) ==> (#[trigger] r@[i])
                        < 97 + k,
            decreases t,
        {
            let digit: u32 = t.trailing_zeros();
            let ghost before = r@;
            let ghost rest = t;
            proof {
                vstd::std_specs::bits::axiom_u32_trailing_zeros(t);
                assert(WordBitmap(t).has(digit));
                assert(digit < 32 && (rest >> digit) & 1 == 1 ==> (rest & !(1u32 << digit)) < rest)
                    by (bit_vector);
            }
            r.push(97 + digit as u8);
            t = t & !(1u32 << digit);
            proof {
                assert forall|k: u32| k < 32 implies (WordBitmap(t).has(k) <==> (WordBitmap(
                    rest,
                ).has(k) && k != digit)) by {
                    assert(digit < 32 && k < 32 ==> ((((rest & !(1u32 << digit)) >> k) & 1 == 1)
                        <==> ((rest >> k) & 1 == 1 && k != digit))) by (bit_vector);
                }
                assert forall|k: u32| k < 32 && WordBitmap(t).has(k) implies k > digit by {
                    if k < digit {
                        assert((rest >> k) & 1 == 0);
                    }
                }
                assert forall|k: u32| k < 32 implies ((r@.contains((97 + k) as u8) || WordBitmap(
                    t,
                ).has(k)) <==> #[trigger] self.has(k)) by {
                    let x = (97 + k) as u8;
                    assert(r@.drop_last() =~= before);
                    if r@.contains(x) {
                        let m = choose|m: int| 0 <= m < r@.len() && r@[m] == x;
                        if m < before.len() {
                            assert(before[m] == x);
                        }
                    }
                    if before.contains(x) {
                        let m = choose|m: int| 0 <= m < before.len() && before[m] == x;
                        assert(r@[m] == x);
                    }
                    if k == digit {
                        assert(r@[r@.len() - 1] == x);
                    }
                }
                assert forall|i: int, j: int|
                    #![trigger r@[i], r@[j]]
                    0 <= i < j < r@.len() implies r@[i] < r@[j] by {
                    assert(r@[i] == before[i]);
                    if j < before.len() {
                        assert(r@[j] == before[j]);
                    }
                }
                assert forall|i: int, k: u32|
                    0 <= i < r@.len() && #[trigger] WordBitmap(t).has(k) implies (#[trigger] r@[i])
                    < 97 + k by {
                    assert(WordBitmap(rest).has(k));
                    if i < before.len() {
                        assert(r@[i] == before[i]);
                    }
                }
            }
        }
        proof {
            assert forall|k: u32| k < 32 implies !WordBitmap(0).has(k) by {
                assert((0u32 >> k) & 1 == 0) by (bit_vector);
            }
        }
        r
    }

    /// Whether the set holds the 25 letters of five disjoint words.
    pub fn is_full(self) -> (r: bool)
        ensures
            r == (bit_count(self.0) == 25),
    {
        self.letter_count() == 25
    }
}

/// A 32-bit value has at most 32 bits set.
pub proof fn lemma_bit_count_bound(x: u32)
    ensures
        bit_count(x) <= 32,
{
    vstd::arithmetic::power2::lemma2_to64();
    lemma_bit_count_below(x, 32);
}

proof fn lemma_bit_count_below(x: u32, k: nat)
    requires
        k <= 32,
        x as int <= vstd::arithmetic::power2::pow2(k) - 1,
    ensures
        bit_count(x) <= k,
    decreases k,
{
    vstd::arithmetic::power2::lemma2_to64();
    if x != 0 {
        if k == 0 {
            vstd::arithmetic::power2::lemma_pow2_pos(0);
        } else {
            vstd::arithmetic::power2::lemma_pow2_unfold(k);
            lemma_bit_count_below(x / 2, (k - 1) as nat);
        }
    }
}

/// Counting the letters of two disjoint sets together adds their counts.
pub proof fn lemma_bit_count_union(a: u32, b: u32)
    requires
        a & b == 0,
    ensures
        bit_count(a | b) == bit_count(a) + bit_count(b),
    decreases a + b,
{
    if a == 0 && b == 0 {
        assert(0u32 | 0u32 == 0u32) by (bit_vector);
    } else {
        assert(a & b == 0 ==> ((a / 2) & (b / 2) == 0 && (a | b) / 2 == (a / 2) | (b / 2) && (a | b)
            % 2 == a % 2 + b % 2 && (a | b) != 0 || (a == 0 && b == 0))) by (bit_vector);
        lemma_bit_count_union(a / 2, b / 2);
    }
}

/// A single letter counts as one.
pub proof fn lemma_bit_count_letter(k: u32)
    requires
        k < 32,
    ensures
        bit_count(1u32 << k) == 1,
    decreases k,
{
    if k == 0 {
        assert(1u32 << 0u32 == 1u32) by (bit_vector);
        assert(bit_count(0) == 0);
        assert(bit_count(1) == 1 + bit_count(0));
    } else {
        assert(k < 32 && k > 0 ==> (1u32 << k) != 0 && (1u32 << k) % 2 == 0 && (1u32 << k) / 2 == 1u32
            << ((k - 1) as u32)) by (bit_vector);
        lemma_bit_count_letter((k - 1) as u32);
    }
}

} // verus!
