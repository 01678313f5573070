//! The words that can still be chosen once some letters are used, with a memo.

use crate::letters::WordBitmap;
use crate::model::possible;
use std::collections::HashMap;
use vstd::prelude::*;

verus! {

/// Every list in the memo is the list of possible words for its key.
pub open spec fn cache_ok(c: Seq<WordBitmap>, cache: Map<u32, Vec<WordBitmap>>) -> bool {
    forall|k: u32| cache.contains_key(k) ==> (#[trigger] cache[k])@ == possible(c, k)
}

/// The words of `all_words` that share no letter with `used_letters`, in the
/// order in which `all_words` holds them.
pub fn possible_words(used_letters: WordBitmap, all_words: &Vec<WordBitmap>) -> (r: Vec<
    WordBitmap,
>)
    ensures
        r@ == possible(all_words@, used_letters.0),
{
    let mut temp: Vec<WordBitmap> = Vec::new();
    let mut i: usize = 0;
    while i < all_words.len()
        invariant
            i <= all_words@.len(),
            temp@ == possible(all_words@.take(i as int), used_letters.0),
        decreases all_words.len() - i,
    {
        let word = all_words[i];
        proof {
            assert(all_words@.take(i + 1).drop_last() =~= all_words@.take(i as int));
        }
        if !used_letters.overlaps(word) {
            temp.push(word);
        }
        proof {
            let a = used_letters.0;
            let b = word.0;
            assert((a & b == 0) <==> (b & a == 0)) by (bit_vector);
        }
        i += 1;
    }
    proof {
        assert(all_words@.take(i as int) =~= all_words@);
    }
    temp
}

/// The possible words for `used_letters`, computed on the first call for
/// these letters and taken from the memo on every later one.
pub fn get_possible_words<'a>(
    cache: &'a mut HashMap<u32, Vec<WordBitmap>>,
    used_letters: WordBitmap,
    all_words: &Vec<WordBitmap>,
) -> (r: &'a Vec<WordBitmap>)
    requires
        cache_ok(all_words@, old(cache)@),
    ensures
        r@ == possible(all_words@, used_letters.0),
        cache_ok(all_words@, final(cache)@),
        final(cache)@ == old(cache)@.insert(used_letters.0, *r),
        old(cache)@.contains_key(used_letters.0) ==> final(cache)@ == old(cache)@,
{
    if !cache.contains_key(&used_letters.0) {
        let list = possible_words(used_letters, all_words);
        cache.insert(used_letters.0, list);
    }
    let found = cache.get(&used_letters.0);
    let list = found.unwrap();
    proof {
        assert(cache@ =~= old(cache)@.insert(used_letters.0, *list));
    }
    list
}

} // verus!
