//! The whole run: corpus, batches of first words, search, records.

use crate::corpus::{build_corpus, keys_of, Corpus};
use crate::dead_ends::DeadEnds;
use crate::expand::{expand_solution, expansions, groups_of, views};
use crate::frontier::{agree, comes_before, listed};
use crate::letters::WordBitmap;
use crate::model::{corpus_ok, in_batch, is_solution, store_sound};
use crate::search::{calculate_solution_in_thread, found_all, sound_out};
use std::ops::Range;
use vstd::prelude::*;

verus! {

/// How many first words one batch holds.
pub const BATCH_SIZE: usize = 32;

/// The number of batches that cover `num_words` first words.
pub fn batch_count(num_words: usize) -> (n: usize)
    ensures
        n == (num_words + 31) / 32,
{
    let whole: usize = num_words / BATCH_SIZE;
    if num_words % BATCH_SIZE == 0 {
        whole
    } else {
        whole + 1
    }
}

/// The positions of the first words of batch `i`: `BATCH_SIZE` of them, or
/// fewer in the last batch.
pub fn batch_range(i: usize, num_words: usize) -> (r: Range<usize>)
    requires
        i * 32 < num_words,
    ensures
        r.start == i * 32,
        r.end == if (i + 1) * 32 <= num_words {
            (i + 1) * 32
        } else {
            num_words as int
        },
{
    let start: usize = i * BATCH_SIZE;
    let end: usize = if num_words - start < BATCH_SIZE {
        num_words
    } else {
        start + BATCH_SIZE
    };
    Range { start, end }
}

/// The solutions of two batches that lie side by side are the solutions of
/// the two taken as one batch.
pub proof fn lemma_batches_join(
    c: Seq<WordBitmap>,
    a: int,
    m: int,
    b: int,
    left: Seq<Vec<WordBitmap>>,
    right: Seq<Vec<WordBitmap>>,
)
    requires
        corpus_ok(c),
        a <= m <= b,
        found_all(c, a, m, left),
        found_all(c, m, b, right),
    ensures
        found_all(c, a, b, left + right),
{
    let both = left + right;
    assert forall|k: int| 0 <= k < both.len() implies is_solution(c, (#[trigger] both[k])@)
        && in_batch(c, a, b, both[k]@[0]) by {
        if k < left.len() {
            assert(both[k] == left[k]);
            let i = choose|i: int| a <= i < m && 0 <= i < c.len() && c[i] == left[k]@[0];
            assert(a <= i < b && c[i] == both[k]@[0]);
        } else {
            assert(both[k] == right[k - left.len()]);
            let i = choose|i: int|
                m <= i < b && 0 <= i < c.len() && c[i] == right[k - left.len()]@[0];
            assert(a <= i < b && c[i] == both[k]@[0]);
        }
    }
    assert forall|j: int, k: int|
        #![trigger both[j], both[k]]
        0 <= j < k < both.len() implies both[j]@ != both[k]@ && comes_before(
        both[j]@,
        both[k]@,
    ) by {
        if k < left.len() {
            assert(both[j] == left[j] && both[k] == left[k]);
        } else if j >= left.len() {
            assert(both[j] == right[j - left.len()] && both[k] == right[k - left.len()]);
        } else {
            assert(both[j] == left[j] && both[k] == right[k - left.len()]);
            let w1 = left[j]@[0];
            let w2 = right[k - left.len()]@[0];
            let i1 = choose|i: int| a <= i < m && 0 <= i < c.len() && c[i] == w1;
            let i2 = choose|i: int| m <= i < b && 0 <= i < c.len() && c[i] == w2;
            assert(c[i1].0 < c[i2].0);
            assert(agree(both[j]@, both[k]@, 0));
        }
    }
    assert forall|t: Seq<WordBitmap>| #[trigger]
        is_solution(c, t) && in_batch(c, a, b, t[0]) implies listed(both, t) by {
        let i = choose|i: int| a <= i < b && 0 <= i < c.len() && c[i] == t[0];
        if i < m {
            assert(in_batch(c, a, m, t[0]));
            let k = choose|k: int| 0 <= k < left.len() && (#[trigger] left[k])@ == t;
            assert(both[k]@ == t);
        } else {
            assert(in_batch(c, m, b, t[0]));
            let k = choose|k: int| 0 <= k < right.len() && (#[trigger] right[k])@ == t;
            assert(both[k + left.len()]@ == t);
        }
    }
}

/// Every solution of the corpus, found batch by batch with one store of
/// dead ends for all batches.
pub fn find_solutions(word_list: &Vec<WordBitmap>) -> (out: Vec<Vec<WordBitmap>>)
    requires
        corpus_ok(word_list@),
    ensures
        found_all(word_list@, 0, word_list@.len() as int, out@),
{
    let ghost c = word_list@;
    let num_words: usize = word_list.len();
    let mut dead_ends = DeadEnds::new();
    let batches: usize = batch_count(num_words);
    let mut out: Vec<Vec<WordBitmap>> = Vec::new();
    let mut i: usize = 0;
    let ghost mut done: int = 0;
    while i < batches
        invariant
            c == word_list@,
            corpus_ok(c),
            num_words == c.len(),
            batches == (num_words + 31) / 32,
            i <= batches,
            dead_ends.wf(),
            store_sound(c, dead_ends@),
            done == if i * 32 <= num_words {
                i * 32
            } else {
                num_words as int
            },
            found_all(c, 0, done, out@),
        decreases batches - i,
    {
        let range = batch_range(i, num_words);
        let ghost end = range.end as int;
        let mut part = calculate_solution_in_thread(range, word_list, &mut dead_ends);
        proof {
            lemma_batches_join(c, 0, done, end, out@, part@);
            done = end;
        }
        out.append(&mut part);
        i += 1;
    }
    out
}

/// The records of all combinations, combination by combination.
pub open spec fn records_of(corpus: Corpus, combos: Seq<Vec<WordBitmap>>) -> Seq<Seq<usize>>
    decreases combos.len(),
{
    if combos.len() == 0 {
        Seq::empty()
    } else {
        records_of(corpus, combos.drop_last()) + expansions(groups_of(corpus, combos.last()@))
    }
}

/// What a run yields.
pub struct Solved {
    /// The corpus of the word list.
    pub corpus: Corpus,
    /// Every combination of five letter sets without a common letter.
    pub combinations: Vec<Vec<WordBitmap>>,
    /// Every record: five places in the word list, one spelling per word.
    pub records: Vec<Vec<usize>>,
}

/// Solves a word list: builds its corpus, finds every combination of five
/// words without a common letter, and spells each out in every way.
pub fn solve(lines: &Vec<&str>) -> (s: Solved)
    ensures
        s.corpus.indexes(keys_of(lines@)),
        found_all(s.corpus.word_list@, 0, s.corpus.word_list@.len() as int, s.combinations@),
        views(s.records@) == records_of(s.corpus, s.combinations@),
{
    let corpus = build_corpus(lines);
    let combinations = find_solutions(&corpus.word_list);
    let mut records: Vec<Vec<usize>> = Vec::new();
    let mut k: usize = 0;
    proof {
        assert(combinations@.take(0) =~= Seq::<Vec<WordBitmap>>::empty());
        assert(views(records@) =~= records_of(corpus, combinations@.take(0)));
    }
    while k < combinations.len()
        invariant
            k <= combinations@.len(),
            corpus_ok(corpus.word_list@),
            corpus.anagrams@.len() == corpus.word_list@.len(),
            sound_out(corpus.word_list@, 0, corpus.word_list@.len() as int, combinations@),
            views(records@) == records_of(corpus, combinations@.take(k as int)),
        decreases combinations.len() - k,
    {
        let ghost before = views(records@);
        let mut part = expand_solution(&corpus, &combinations[k]);
        let ghost added = views(part@);
        records.append(&mut part);
        proof {
            assert(combinations@.take(k + 1).drop_last() =~= combinations@.take(k as int));
            assert(combinations@.take(k + 1).last() == combinations@[k as int]);
            assert(views(records@) =~= before + added);
        }
        k += 1;
    }
    proof {
        assert(combinations@.take(k as int) =~= combinations@);
    }
    Solved { corpus, combinations, records }
}

} // verus!
