//! Facts that hold of every corpus, every solution and every run.

use crate::corpus::{lemma_positions, Corpus};
use crate::frontier::listed;
use crate::letters::{bit_count, WordBitmap};
use crate::model::{
    begins_none, corpus_ok, dead, explained, in_batch, is_solution, lemma_chain_count,
    lemma_rooted_dead, letters_of, marks_explained, rooted, store_sound,
};
use crate::search::found_all;
use vstd::prelude::*;

verus! {

/// Every entry of a corpus has exactly five letters, and two spellings that
/// stand behind the same entry have the same letter set.
pub proof fn corpus_entries_are_distinct_words(
    corpus: Corpus,
    keys: Seq<Option<WordBitmap>>,
    i: int,
    m: int,
    n: int,
)
    requires
        keys.len() <= usize::MAX,
        corpus.indexes(keys),
        0 <= i < corpus.word_list@.len(),
        0 <= m < corpus.anagrams@[i]@.len(),
        0 <= n < corpus.anagrams@[i]@.len(),
    ensures
        bit_count(corpus.word_list@[i].0) == 5,
        corpus.anagrams@[i]@[m] < keys.len(),
        keys[corpus.anagrams@[i]@[m] as int] == Some(corpus.word_list@[i]),
        keys[corpus.anagrams@[i]@[m] as int] == keys[corpus.anagrams@[i]@[n] as int],
{
    let w = corpus.word_list@[i];
    lemma_positions(keys, w);
    let p = crate::corpus::positions(keys, w);
    assert(corpus.anagrams@[i]@ == p);
    assert(p[m] < keys.len() && keys[p[m] as int] == Some(w));
    assert(p[n] < keys.len() && keys[p[n] as int] == Some(w));
}

/// The five words of a solution share no letter, so together they hold
/// exactly 25 letters.
pub proof fn solution_holds_25_letters(c: Seq<WordBitmap>, t: Seq<WordBitmap>)
    requires
        corpus_ok(c),
        is_solution(c, t),
    ensures
        bit_count(letters_of(t)) == 25,
        forall|i: int, j: int|
            #![trigger t[i], t[j]]
            0 <= i < j < 5 ==> t[i].0 & t[j].0 == 0,
{
    lemma_chain_count(c, t);
}

/// The words of a solution come in strictly falling order, so two solutions
/// made of the same five words are one and the same: no reordering of a
/// combination is a solution of its own.
pub proof fn solution_has_one_order(c: Seq<WordBitmap>, s: Seq<WordBitmap>, t: Seq<WordBitmap>)
    requires
        is_solution(c, s),
        is_solution(c, t),
        forall|w: WordBitmap| s.contains(w) <==> t.contains(w),
    ensures
        forall|i: int, j: int| #![trigger s[i], s[j]] 0 <= i < j < 5 ==> s[j].0 < s[i].0,
        s == t,
{
    lemma_same_prefix(c, s, t, 5);
    assert(s =~= t);
}

proof fn lemma_same_prefix(c: Seq<WordBitmap>, s: Seq<WordBitmap>, t: Seq<WordBitmap>, k: int)
    requires
        is_solution(c, s),
        is_solution(c, t),
        forall|w: WordBitmap| s.contains(w) <==> t.contains(w),
        0 <= k <= 5,
    ensures
        forall|i: int| 0 <= i < k ==> s[i] == t[i],
    decreases k,
{
    if k > 0 {
        lemma_same_prefix(c, s, t, k - 1);
        let i = k - 1;
        assert(s.contains(s[i]));
        assert(t.contains(t[i]));
        let a = choose|a: int| 0 <= a < t.len() && t[a] == s[i];
        let b = choose|b: int| 0 <= b < s.len() && s[b] == t[i];
        if a < i {
            assert(s[a] == t[a]);
            assert(s[i].0 < s[a].0);
        }
        if b < i {
            assert(s[b] == t[b]);
            assert(t[i].0 < t[b].0);
        }
        if a > i {
            assert(t[a].0 < t[i].0);
        }
        if b > i {
            assert(s[b].0 < s[i].0);
        }
        assert(s[i].0 == t[i].0);
    }
}

/// A state that a sound store marks is the letters of the first words of no
/// solution: a search that begins from it, with whatever store, finds
/// nothing.
pub proof fn marked_state_begins_no_solution(
    c: Seq<WordBitmap>,
    marked: Set<u32>,
    state: u32,
    t: Seq<WordBitmap>,
    d: int,
)
    requires
        store_sound(c, marked),
        marked.contains(state),
        is_solution(c, t),
        1 <= d <= 5,
    ensures
        letters_of(t.take(d)) != state,
{
}

/// What a search adds to a sound store leaves the store sound: each state
/// that it marks is the letters of a chain whose first word begins no
/// solution.
pub proof fn marks_keep_the_store_sound(
    c: Seq<WordBitmap>,
    start: int,
    end: int,
    before: Set<u32>,
    after: Set<u32>,
)
    requires
        corpus_ok(c),
        store_sound(c, before),
        marks_explained(c, start, end, before, after),
    ensures
        store_sound(c, after),
{
    assert forall|s: u32| after.contains(s) implies dead(c, s) by {
        if !before.contains(s) {
            assert(explained(c, start, end, s));
            let i = choose|i: int|
                start <= i < end && 0 <= i < c.len() && begins_none(c, c[i]) && #[trigger] rooted(
                    c,
                    s,
                    c[i],
                );
            lemma_rooted_dead(c, c[i], s);
        }
    }
}

/// Two searches of the same batch find the same combinations, whatever the
/// dead ends that each of them knew.
pub proof fn searches_agree(
    c: Seq<WordBitmap>,
    start: int,
    end: int,
    first: Seq<Vec<WordBitmap>>,
    second: Seq<Vec<WordBitmap>>,
)
    requires
        found_all(c, start, end, first),
        found_all(c, start, end, second),
    ensures
        forall|t: Seq<WordBitmap>| listed(first, t) <==> listed(second, t),
{
    assert forall|t: Seq<WordBitmap>| listed(first, t) implies listed(second, t) by {
        let k = choose|k: int| 0 <= k < first.len() && (#[trigger] first[k])@ == t;
        assert(is_solution(c, first[k]@) && in_batch(c, start, end, first[k]@[0]));
    }
    assert forall|t: Seq<WordBitmap>| listed(second, t) implies listed(first, t) by {
        let k = choose|k: int| 0 <= k < second.len() && (#[trigger] second[k])@ == t;
        assert(is_solution(c, second[k]@) && in_batch(c, start, end, second[k]@[0]));
    }
}

/// Searching two neighbouring batches apart and searching them as one batch
/// find the same combinations, each of them once.
pub proof fn split_search_agrees(
    c: Seq<WordBitmap>,
    start: int,
    middle: int,
    end: int,
    left: Seq<Vec<WordBitmap>>,
    right: Seq<Vec<WordBitmap>>,
    whole: Seq<Vec<WordBitmap>>,
)
    requires
        corpus_ok(c),
        start <= middle <= end,
        found_all(c, start, middle, left),
        found_all(c, middle, end, right),
        found_all(c, start, end, whole),
    ensures
        found_all(c, start, end, left + right),
        forall|t: Seq<WordBitmap>| listed(left + right, t) <==> listed(whole, t),
{
    crate::solver::lemma_batches_join(c, start, middle, end, left, right);
    searches_agree(c, start, end, left + right, whole);
}

} // verus!
