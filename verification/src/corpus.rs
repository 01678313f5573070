//! The corpus: one letter set per group of anagrams, in ascending order, and
//! for each of them the places of its spellings in the word list.

use crate::letters::{valid_word, word_bits, WordBitmap};
use crate::model::corpus_ok;
use crate::words::get_valid_word;
use vstd::prelude::*;
use vstd::string::StringSliceAdditionalSpecFns;

verus! {

/// The letter set of a spelling, where it has one.
pub open spec fn key_of(b: Seq<u8>) -> Option<WordBitmap> {
    if valid_word(b) {
        Some(WordBitmap(word_bits(b)))
    } else {
        None
    }
}

/// The letter set of each line.
pub open spec fn keys_of(lines: Seq<&str>) -> Seq<Option<WordBitmap>> {
    Seq::new(lines.len(), |j: int| key_of(lines[j].spec_bytes()))
}

/// The places in `keys` that hold `w`, in ascending order.
pub open spec fn positions(keys: Seq<Option<WordBitmap>>, w: WordBitmap) -> Seq<usize>
    decreases keys.len(),
{
    if keys.len() == 0 {
        Seq::empty()
    } else if keys.last() == Some(w) {
        positions(keys.drop_last(), w).push((keys.len() - 1) as usize)
    } else {
        positions(keys.drop_last(), w)
    }
}

/// The anagram-free word list and the spellings behind each of its entries.
pub struct Corpus {
    /// One letter set per group of anagrams, ascending.
    pub word_list: Vec<WordBitmap>,
    /// For the letter set at the same place in `word_list`, the places of its
    /// spellings in the lines that the corpus was built from.
    pub anagrams: Vec<Vec<usize>>,
}

impl Corpus {
    /// The corpus holds the letter sets of `keys`, each once and in ascending
    /// order, and beside each the places at which `keys` holds it.
    pub open spec fn indexes(&self, keys: Seq<Option<WordBitmap>>) -> bool {
        &&& corpus_ok(self.word_list@)
        &&& self.anagrams@.len() == self.word_list@.len()
        &&& forall|w: WordBitmap| #[trigger]
            self.word_list@.contains(w) <==> keys.contains(Some(w))
        &&& forall|i: int|
            0 <= i < self.word_list@.len() ==> (#[trigger] self.anagrams@[i])@ == positions(
                keys,
                self.word_list@[i],
            )
    }

    /// Where `w` stands in the word list.
    pub fn find(&self, w: WordBitmap) -> (r: Option<usize>)
        requires
            corpus_ok(self.word_list@),
        ensures
            match r {
                Some(i) => i < self.word_list@.len() && self.word_list@[i as int] == w,
                None => !self.word_list@.contains(w),
            },
    {
        let i = lower_bound(&self.word_list, w);
        if i < self.word_list.len() && self.word_list[i].0 == w.0 {
            Some(i)
        } else {
            proof {
                let c = self.word_list@;
                if c.contains(w) {
                    let k = choose|k: int| 0 <= k < c.len() && c[k] == w;
                    if k < i {
                        assert(c[k].0 < w.0);
                    } else if k > i {
                        assert(c[i as int].0 < c[k].0);
                    }
                }
            }
            None
        }
    }
}

/// The first place in the ascending `list` whose word is not below `w`.
pub fn lower_bound(list: &Vec<WordBitmap>, w: WordBitmap) -> (i: usize)
    ensures
        i <= list@.len(),
        forall|k: int| 0 <= k < i ==> (#[trigger] list@[k]).0 < w.0,
        i < list@.len() ==> list@[i as int].0 >= w.0,
{
    let mut i: usize = 0;
    while i < list.len() && list[i].0 < w.0
        invariant
            i <= list@.len(),
            forall|k: int| 0 <= k < i ==> (#[trigger] list@[k]).0 < w.0,
        decreases list.len() - i,
    {
        i += 1;
    }
    i
}

/// The places of a letter set are places that hold it, below the length of
/// `keys`, and there is one wherever `keys` holds it.
pub proof fn lemma_positions(keys: Seq<Option<WordBitmap>>, w: WordBitmap)
    requires
        keys.len() <= usize::MAX,
    ensures
        forall|m: int|
            0 <= m < positions(keys, w).len() ==> (#[trigger] positions(keys, w)[m]) < keys.len()
                && keys[positions(keys, w)[m] as int] == Some(w),
        keys.contains(Some(w)) <==> positions(keys, w).len() > 0,
    decreases keys.len(),
{
    if keys.len() > 0 {
        let f = keys.drop_last();
        lemma_positions(f, w);
        let pf = positions(f, w);
        let p = positions(keys, w);
        assert forall|m: int| 0 <= m < p.len() implies (#[trigger] p[m]) < keys.len() && keys[p[m] as int]
            == Some(w) by {
            if m < pf.len() {
                assert(p[m] == pf[m]);
                assert(f[pf[m] as int] == keys[pf[m] as int]);
            }
        }
        if keys.contains(Some(w)) {
            let k = choose|k: int| 0 <= k < keys.len() && keys[k] == Some(w);
            if k < f.len() {
                assert(f[k] == Some(w));
                assert(f.contains(Some(w)));
            }
        }
        if p.len() > 0 {
            assert(keys[p[0] as int] == Some(w));
        }
    }
}

/// Groups the letter sets in `keys`: every letter set once, in ascending
/// order, with the places at which it occurs.
pub fn index_keys(keys: &Vec<Option<WordBitmap>>) -> (corpus: Corpus)
    requires
        forall|j: int|
            0 <= j < keys@.len() ==> ((#[trigger] keys@[j]) matches Some(w) ==> w.is_word()),
    ensures
        corpus.indexes(keys@),
{
    let mut corpus = Corpus { word_list: Vec::new(), anagrams: Vec::new() };
    let mut j: usize = 0;
    proof {
        assert(keys@.take(0) =~= Seq::<Option<WordBitmap>>::empty());
    }
    while j < keys.len()
        invariant
            j <= keys@.len(),
            forall|k: int|
                0 <= k < keys@.len() ==> ((#[trigger] keys@[k]) matches Some(w) ==> w.is_word()),
            corpus.indexes(keys@.take(j as int)),
        decreases keys.len() - j,
    {
        let ghost seen = keys@.take(j as int);
        let ghost now = keys@.take(j + 1);
        let ghost old_list = corpus.word_list@;
        let ghost old_groups = corpus.anagrams@;
        proof {
            assert(now.drop_last() =~= seen);
            assert(now.last() == keys@[j as int]);
        }
        match keys[j] {
            Some(w) => {
                let i = lower_bound(&corpus.word_list, w);
                if i < corpus.word_list.len() && corpus.word_list[i].0 == w.0 {
                    let mut group: Vec<usize> = Vec::new();
                    std::mem::swap(&mut group, &mut corpus.anagrams[i]);
                    group.push(j);
                    corpus.anagrams.set(i, group);
                    proof {
                        assert(old_list[i as int] == w);
                        assert forall|x: WordBitmap| #[trigger]
                            corpus.word_list@.contains(x) <==> now.contains(Some(x)) by {
                            lemma_contains_step(seen, now, Some(x));
                            assert(old_list.contains(old_list[i as int]));
                        }
                        assert forall|k: int|
                            0 <= k < corpus.word_list@.len() implies (#[trigger] corpus.anagrams@[k])@
                            == positions(now, corpus.word_list@[k]) by {
                            assert(old_groups[k]@ == positions(seen, old_list[k]));
                            if k != i {
                                if k < i {
                                    assert(old_list[k].0 < old_list[i as int].0);
                                } else {
                                    assert(old_list[i as int].0 < old_list[k].0);
                                }
                            }
                        }
                    }
                } else {
                    corpus.word_list.insert(i, w);
                    corpus.anagrams.insert(i, vec![j]);
                    proof {
                        let c = corpus.word_list@;
                        assert forall|a: int, b: int|
                            #![trigger c[a], c[b]]
                            0 <= a < b < c.len() implies c[a].0 < c[b].0 by {
                            let a0 = if a < i { a } else { a - 1 };
                            let b0 = if b < i { b } else { b - 1 };
                            if a != i {
                                assert(c[a] == old_list[a0]);
                            }
                            if b != i {
                                assert(c[b] == old_list[b0]);
                            }
                            if a != i && b != i {
                                assert(old_list[a0].0 < old_list[b0].0);
                            }
                        }
                        assert forall|k: int| 0 <= k < c.len() implies (#[trigger] c[k]).is_word() by {
                            if k < i {
                                assert(c[k] == old_list[k]);
                            } else if k > i {
                                assert(c[k] == old_list[k - 1]);
                            }
                        }
                        assert(!old_list.contains(w)) by {
                            if old_list.contains(w) {
                                let k = choose|k: int| 0 <= k < old_list.len() && old_list[k] == w;
                                if k > i {
                                    assert(old_list[i as int].0 < old_list[k].0);
                                }
                            }
                        }
                        assert forall|x: WordBitmap| #[trigger]
                            c.contains(x) <==> now.contains(Some(x)) by {
                            lemma_contains_step(seen, now, Some(x));
                            if c.contains(x) {
                                let k = choose|k: int| 0 <= k < c.len() && c[k] == x;
                                if k < i {
                                    assert(old_list[k] == x);
                                } else if k > i {
                                    assert(old_list[k - 1] == x);
                                }
                            }
                            if old_list.contains(x) {
                                let k = choose|k: int| 0 <= k < old_list.len() && old_list[k] == x;
                                if k < i {
                                    assert(c[k] == x);
                                } else {
                                    assert(c[k + 1] == x);
                                }
                            }
                            if x == w {
                                assert(c[i as int] == x);
                            }
                        }
                        lemma_positions(seen, w);
                        assert forall|k: int| 0 <= k < c.len() implies (#[trigger] corpus.anagrams@[k])@
                            == positions(now, c[k]) by {
                            if k < i {
                                assert(corpus.anagrams@[k] == old_groups[k]);
                                assert(c[k] == old_list[k]);
                                assert(old_list.contains(old_list[k]));
                            } else if k > i {
                                assert(corpus.anagrams@[k] == old_groups[k - 1]);
                                assert(c[k] == old_list[k - 1]);
                                assert(old_list.contains(old_list[k - 1]));
                            } else {
                                assert(positions(seen, w) =~= Seq::<usize>::empty());
                                assert(corpus.anagrams@[k]@ =~= positions(now, w));
                            }
                        }
                    }
                }
            },
            None => {
                proof {
                    assert forall|x: WordBitmap| #[trigger]
                        corpus.word_list@.contains(x) <==> now.contains(Some(x)) by {
                        lemma_contains_step(seen, now, Some(x));
                    }
                }
            },
        }
        j += 1;
    }
    proof {
        assert(keys@.take(j as int) =~= keys@);
    }
    corpus
}

/// A sequence one item longer holds what the shorter one held, and its last item.
pub proof fn lemma_contains_step<T>(shorter: Seq<T>, longer: Seq<T>, x: T)
    requires
        longer.len() > 0,
        longer.drop_last() == shorter,
    ensures
        longer.contains(x) <==> (shorter.contains(x) || longer.last() == x),
{
    if longer.contains(x) {
        let k = choose|k: int| 0 <= k < longer.len() && longer[k] == x;
        if k < shorter.len() {
            assert(shorter[k] == x);
        }
    }
    if shorter.contains(x) {
        let k = choose|k: int| 0 <= k < shorter.len() && shorter[k] == x;
        assert(longer[k] == x);
    }
    if longer.last() == x {
        assert(longer[longer.len() - 1] == x);
    }
}

/// Builds the corpus of a word list: lines that are not five distinct
/// lowercase letters are left out, anagrams share one entry.
pub fn build_corpus(lines: &Vec<&str>) -> (corpus: Corpus)
    ensures
        corpus.indexes(keys_of(lines@)),
{
    let mut keys: Vec<Option<WordBitmap>> = Vec::new();
    let mut j: usize = 0;
    while j < lines.len()
        invariant
            j <= lines@.len(),
            keys@ == keys_of(lines@).take(j as int),
            forall|k: int|
                0 <= k < keys@.len() ==> ((#[trigger] keys@[k]) matches Some(w) ==> w.is_word()),
        decreases lines.len() - j,
    {
        let key = get_valid_word(lines[j]);
        let ghost before = keys@;
        keys.push(key);
        proof {
            assert(keys@ =~= keys_of(lines@).take(j + 1));
            assert forall|k: int| 0 <= k < keys@.len() implies ((#[trigger] keys@[k]) matches Some(
                w,
            ) ==> w.is_word()) by {
                if k < j {
                    assert(keys@[k] == before[k]);
                }
            }
        }
        j += 1;
    }
    proof {
        assert(keys_of(lines@).take(j as int) =~= keys_of(lines@));
    }
    index_keys(&keys)
}

} // verus!
