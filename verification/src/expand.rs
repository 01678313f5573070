//! From a combination of letter sets back to spellings: one record for each
//! way to pick a spelling per word.

use crate::corpus::Corpus;
use crate::letters::WordBitmap;
use crate::model::corpus_ok;
use vstd::prelude::*;

verus! {

/// Each item with `a` added at its end.
pub open spec fn extend_each(items: Seq<Seq<usize>>, a: usize) -> Seq<Seq<usize>> {
    Seq::new(items.len(), |i: int| items[i].push(a))
}

/// For each member of `group` in turn, every item with that member added.
pub open spec fn extend_all(items: Seq<Seq<usize>>, group: Seq<usize>) -> Seq<Seq<usize>>
    decreases group.len(),
{
    if group.len() == 0 {
        Seq::empty()
    } else {
        extend_all(items, group.drop_last()) + extend_each(items, group.last())
    }
}

/// Every way to take one member from each group. The member of the first
/// group changes fastest.
pub open spec fn expansions(groups: Seq<Seq<usize>>) -> Seq<Seq<usize>>
    decreases groups.len(),
{
    if groups.len() == 0 {
        seq![Seq::<usize>::empty()]
    } else {
        extend_all(expansions(groups.drop_last()), groups.last())
    }
}

/// The contents of each vector.
pub open spec fn views(v: Seq<Vec<usize>>) -> Seq<Seq<usize>> {
    Seq::new(v.len(), |i: int| v[i]@)
}

/// The group of spellings behind `w`.
pub open spec fn group_of(corpus: Corpus, w: WordBitmap) -> Seq<usize> {
    let i = choose|i: int| 0 <= i < corpus.word_list@.len() && corpus.word_list@[i] == w;
    corpus.anagrams@[i]@
}

/// The groups of spellings behind the words of a combination.
pub open spec fn groups_of(corpus: Corpus, sol: Seq<WordBitmap>) -> Seq<Seq<usize>> {
    Seq::new(sol.len(), |k: int| group_of(corpus, sol[k]))
}

/// A copy of `item` with `a` added at its end.
pub fn with_pushed(item: &Vec<usize>, a: usize) -> (r: Vec<usize>)
    ensures
        r@ == item@.push(a),
{
    let mut temp: Vec<usize> = Vec::new();
    let mut i: usize = 0;
    while i < item.len()
        invariant
            i <= item@.len(),
            temp@ == item@.take(i as int),
        decreases item.len() - i,
    {
        temp.push(item[i]);
        proof {
            assert(temp@ =~= item@.take(i + 1));
        }
        i += 1;
    }
    temp.push(a);
    proof {
        assert(item@.take(i as int) =~= item@);
    }
    temp
}

/// Every record of a combination: one spelling for each of its words, in the
/// order of the words.
pub fn expand_solution(corpus: &Corpus, sol: &Vec<WordBitmap>) -> (variations: Vec<Vec<usize>>)
    requires
        corpus_ok(corpus.word_list@),
        corpus.anagrams@.len() == corpus.word_list@.len(),
        forall|k: int| 0 <= k < sol@.len() ==> corpus.word_list@.contains(#[trigger] sol@[k]),
    ensures
        views(variations@) == expansions(groups_of(*corpus, sol@)),
{
    let ghost groups = groups_of(*corpus, sol@);
    let mut variations: Vec<Vec<usize>> = Vec::new();
    variations.push(Vec::new());
    let mut k: usize = 0;
    proof {
        assert(groups.take(0) =~= Seq::<Seq<usize>>::empty());
        assert(views(variations@) =~= expansions(groups.take(0)));
    }
    while k < sol.len()
        invariant
            k <= sol@.len(),
            groups == groups_of(*corpus, sol@),
            corpus_ok(corpus.word_list@),
            corpus.anagrams@.len() == corpus.word_list@.len(),
            forall|m: int| 0 <= m < sol@.len() ==> corpus.word_list@.contains(#[trigger] sol@[m]),
            views(variations@) == expansions(groups.take(k as int)),
        decreases sol.len() - k,
    {
        let word = sol[k];
        proof {
            assert(corpus.word_list@.contains(sol@[k as int]));
        }
        let place = corpus.find(word);
        let i: usize = place.unwrap();
        let group = &corpus.anagrams[i];
        proof {
            let c = corpus.word_list@;
            let chosen_place = choose|m: int| 0 <= m < c.len() && c[m] == word;
            if chosen_place < i {
                assert(c[chosen_place].0 < c[i as int].0);
            } else if chosen_place > i {
                assert(c[i as int].0 < c[chosen_place].0);
            }
            assert(group@ == groups[k as int]);
            assert(groups.take(k + 1).drop_last() =~= groups.take(k as int));
            assert(groups.take(k + 1).last() == group@);
        }
        let mut next: Vec<Vec<usize>> = Vec::new();
        std::mem::swap(&mut next, &mut variations);
        let ghost items = views(next@);
        let mut a: usize = 0;
        proof {
            assert(views(variations@) =~= extend_all(items, group@.take(0)));
        }
        while a < group.len()
            invariant
                a <= group@.len(),
                items == views(next@),
                views(variations@) == extend_all(items, group@.take(a as int)),
            decreases group.len() - a,
        {
            let anagram = group[a];
            let ghost done = views(variations@);
            let mut b: usize = 0;
            proof {
                assert(extend_each(items, anagram).take(0) =~= Seq::<Seq<usize>>::empty());
                assert(done + Seq::<Seq<usize>>::empty() =~= done);
            }
            while b < next.len()
                invariant
                    b <= next@.len(),
                    items == views(next@),
                    views(variations@) == done + extend_each(items, anagram).take(b as int),
                decreases next.len() - b,
            {
                let temp = with_pushed(&next[b], anagram);
                let ghost listed = views(variations@);
                variations.push(temp);
                proof {
                    assert(items[b as int] == next@[b as int]@);
                    assert(extend_each(items, anagram)[b as int] == temp@);
                    assert(views(variations@) =~= listed.push(temp@));
                    assert(extend_each(items, anagram).take(b + 1) =~= extend_each(
                        items,
                        anagram,
                    ).take(b as int).push(temp@));
                    assert(views(variations@) =~= done + extend_each(items, anagram).take(b + 1));
                }
                b += 1;
            }
            proof {
                assert(extend_each(items, anagram).take(b as int) =~= extend_each(items, anagram));
                assert(group@.take(a + 1).drop_last() =~= group@.take(a as int));
            }
            a += 1;
        }
        proof {
            assert(group@.take(a as int) =~= group@);
        }
        k += 1;
    }
    proof {
        assert(groups.take(k as int) =~= groups);
    }
    variations
}

} // verus!
