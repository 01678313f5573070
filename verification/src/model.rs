//! What a solution is, what a dead end is, and the facts that tie them.

use crate::letters::{bit_count, lemma_bit_count_union, WordBitmap, LETTER_MASK};
use vstd::prelude::*;
use vstd::relations::total_ordering;

verus! {

/// A corpus: five-letter sets in strictly ascending order.
pub open spec fn corpus_ok(c: Seq<WordBitmap>) -> bool {
    &&& forall|i: int| 0 <= i < c.len() ==> (#[trigger] c[i]).is_word()
    &&& forall|i: int, j: int|
        #![trigger c[i], c[j]]
        0 <= i < j < c.len() ==> c[i].0 < c[j].0
}

/// All the letters of the words in `p`.
pub open spec fn letters_of(p: Seq<WordBitmap>) -> u32
    decreases p.len(),
{
    if p.len() == 0 {
        0
    } else {
        letters_of(p.drop_last()) | p.last().0
    }
}

/// Words of the corpus, each smaller than the one before it, no two of them
/// sharing a letter.
pub open spec fn is_chain(c: Seq<WordBitmap>, p: Seq<WordBitmap>) -> bool {
    &&& forall|i: int| 0 <= i < p.len() ==> c.contains(#[trigger] p[i])
    &&& forall|i: int, j: int|
        #![trigger p[i], p[j]]
        0 <= i < j < p.len() ==> p[j].0 < p[i].0 && p[i].0 & p[j].0 == 0
}

/// Five words of the corpus without a common letter, largest first.
pub open spec fn is_solution(c: Seq<WordBitmap>, t: Seq<WordBitmap>) -> bool {
    t.len() == 5 && is_chain(c, t)
}

/// `w` stands in the corpus at a position from `start` up to `end`, `end` excluded.
pub open spec fn in_batch(c: Seq<WordBitmap>, start: int, end: int, w: WordBitmap) -> bool {
    exists|i: int| start <= i < end && 0 <= i < c.len() && c[i] == w
}

/// No solution begins with words whose letters together are `s`.
pub open spec fn dead(c: Seq<WordBitmap>, s: u32) -> bool {
    forall|t: Seq<WordBitmap>, d: int|
        is_solution(c, t) && 1 <= d <= 5 ==> letters_of(#[trigger] t.take(d)) != s
}

/// Every marked state is a dead end of the corpus.
pub open spec fn store_sound(c: Seq<WordBitmap>, marked: Set<u32>) -> bool {
    forall|s: u32| marked.contains(s) ==> dead(c, s)
}

/// `x` is the letters of a chain that begins with `first`.
pub open spec fn rooted(c: Seq<WordBitmap>, x: u32, first: WordBitmap) -> bool {
    exists|q: Seq<WordBitmap>|
        is_chain(c, q) && q.len() >= 1 && q[0] == first && #[trigger] letters_of(q) == x
}

/// No solution begins with `first`.
pub open spec fn begins_none(c: Seq<WordBitmap>, first: WordBitmap) -> bool {
    forall|t: Seq<WordBitmap>| is_solution(c, t) ==> #[trigger] t[0] != first
}

/// `s` is the letters of a chain whose first word stands in the batch and
/// begins no solution.
pub open spec fn explained(c: Seq<WordBitmap>, start: int, end: int, s: u32) -> bool {
    exists|i: int|
        start <= i < end && 0 <= i < c.len() && begins_none(c, c[i]) && #[trigger] rooted(
            c,
            s,
            c[i],
        )
}

/// Every state that was marked between `before` and `after` is explained by
/// a first word of the batch.
pub open spec fn marks_explained(
    c: Seq<WordBitmap>,
    start: int,
    end: int,
    before: Set<u32>,
    after: Set<u32>,
) -> bool {
    forall|s: u32| after.contains(s) && !before.contains(s) ==> explained(c, start, end, s)
}

/// The letters of every word from `start` up to `bound` that begins no
/// solution are marked.
pub open spec fn first_words_marked(
    c: Seq<WordBitmap>,
    start: int,
    bound: int,
    marked: Set<u32>,
) -> bool {
    forall|i: int|
        start <= i < bound && 0 <= i < c.len() && begins_none(c, #[trigger] c[i])
            ==> marked.contains(c[i].0)
}

/// The words of the corpus that share no letter with `used`, in corpus order.
pub open spec fn possible(c: Seq<WordBitmap>, used: u32) -> Seq<WordBitmap>
    decreases c.len(),
{
    if c.len() == 0 {
        Seq::empty()
    } else if c.last().0 & used == 0 {
        possible(c.drop_last(), used).push(c.last())
    } else {
        possible(c.drop_last(), used)
    }
}

/// `w` shares no letter with the words of `p` exactly when it shares none with
/// each of them.
pub proof fn lemma_letters_disjoint(p: Seq<WordBitmap>, w: u32)
    ensures
        (letters_of(p) & w == 0) <==> (forall|i: int|
            0 <= i < p.len() ==> (#[trigger] p[i]).0 & w == 0),
    decreases p.len(),
{
    if p.len() == 0 {
        assert(0u32 & w == 0) by (bit_vector);
    } else {
        let f = p.drop_last();
        let l = p.last().0;
        let a = letters_of(f);
        lemma_letters_disjoint(f, w);
        assert(((a | l) & w == 0) <==> (a & w == 0 && l & w == 0)) by (bit_vector);
        if letters_of(p) & w == 0 {
            assert forall|i: int| 0 <= i < p.len() implies (#[trigger] p[i]).0 & w == 0 by {
                if i < p.len() - 1 {
                    assert(f[i] == p[i]);
                }
            }
        }
        if forall|i: int| 0 <= i < p.len() ==> (#[trigger] p[i]).0 & w == 0 {
            assert forall|i: int| 0 <= i < f.len() implies (#[trigger] f[i]).0 & w == 0 by {
                assert(f[i] == p[i]);
            }
            assert(p[p.len() - 1].0 & w == 0);
        }
    }
}

/// Every word of `p` lies within the letters of `p`.
pub proof fn lemma_letters_hold(p: Seq<WordBitmap>, i: int)
    requires
        0 <= i < p.len(),
    ensures
        p[i].0 & letters_of(p) == p[i].0,
    decreases p.len(),
{
    let f = p.drop_last();
    let l = p.last().0;
    let a = letters_of(f);
    let x = p[i].0;
    if i < p.len() - 1 {
        lemma_letters_hold(f, i);
        assert(f[i] == p[i]);
        assert(x & a == x ==> x & (a | l) == x) by (bit_vector);
    } else {
        assert(l & (a | l) == l) by (bit_vector);
    }
}

/// A word of five letters is not empty.
pub proof fn lemma_word_nonzero(w: WordBitmap)
    requires
        w.is_word(),
    ensures
        w.0 != 0,
{
    assert(bit_count(0) == 0);
}

/// The first words of a chain are a chain.
pub proof fn lemma_chain_take(c: Seq<WordBitmap>, p: Seq<WordBitmap>, k: int)
    requires
        is_chain(c, p),
        0 <= k <= p.len(),
    ensures
        is_chain(c, p.take(k)),
{
    let h = p.take(k);
    assert forall|i: int| 0 <= i < h.len() implies c.contains(#[trigger] h[i]) by {
        assert(h[i] == p[i]);
    }
    assert forall|i: int, j: int|
        #![trigger h[i], h[j]]
        0 <= i < j < h.len() implies h[j].0 < h[i].0 && h[i].0 & h[j].0 == 0 by {
        assert(h[i] == p[i] && h[j] == p[j]);
    }
}

/// A chain of `n` words holds `5 * n` letters, all within the alphabet.
pub proof fn lemma_chain_count(c: Seq<WordBitmap>, p: Seq<WordBitmap>)
    requires
        corpus_ok(c),
        is_chain(c, p),
    ensures
        bit_count(letters_of(p)) == 5 * p.len(),
        letters_of(p) <= LETTER_MASK,
    decreases p.len(),
{
    if p.len() == 0 {
        assert(bit_count(0) == 0);
    } else {
        let f = p.drop_last();
        let l = p.last();
        assert(f == p.take(p.len() - 1));
        lemma_chain_take(c, p, p.len() - 1);
        lemma_chain_count(c, f);
        assert(c.contains(p[p.len() - 1]));
        assert(l.is_word());
        assert forall|i: int| 0 <= i < f.len() implies (#[trigger] f[i]).0 & l.0 == 0 by {
            assert(f[i] == p[i]);
        }
        lemma_letters_disjoint(f, l.0);
        lemma_bit_count_union(letters_of(f), l.0);
        let a = letters_of(f);
        let b = l.0;
        assert(a <= 0x03ff_ffffu32 && b <= 0x03ff_ffffu32 ==> (a | b) <= 0x03ff_ffffu32)
            by (bit_vector);
    }
}

/// The first word of a chain holds the highest letter of the whole chain.
pub proof fn lemma_chain_top(c: Seq<WordBitmap>, q: Seq<WordBitmap>)
    requires
        corpus_ok(c),
        is_chain(c, q),
        q.len() >= 1,
    ensures
        (letters_of(q) & !q[0].0) < q[0].0,
        letters_of(q) & q[0].0 == q[0].0,
    decreases q.len(),
{
    let w = q[0].0;
    let f = q.drop_last();
    let l = q.last().0;
    let a = letters_of(f);
    assert(c.contains(q[0]));
    lemma_word_nonzero(q[0]);
    if q.len() == 1 {
        assert(a == 0);
        assert(w != 0 ==> ((0u32 | w) & !w) < w && (0u32 | w) & w == w) by (bit_vector);
    } else {
        assert(f == q.take(q.len() - 1));
        lemma_chain_take(c, q, q.len() - 1);
        lemma_chain_top(c, f);
        assert(f[0] == q[0]);
        assert(q[q.len() - 1].0 < q[0].0 && q[0].0 & q[q.len() - 1].0 == 0);
        assert(((a & !w) < w && a & w == w && l < w && w & l == 0) ==> (((a | l) & !w) < w && (a
            | l) & w == w)) by (bit_vector);
    }
}

/// Where the first words of a solution use the letters of a chain, the rest
/// of the solution completes that chain too, so the chain's first word begins
/// a solution.
pub proof fn lemma_exchange(
    c: Seq<WordBitmap>,
    q: Seq<WordBitmap>,
    t: Seq<WordBitmap>,
    d: int,
)
    requires
        corpus_ok(c),
        is_chain(c, q),
        q.len() >= 1,
        is_solution(c, t),
        1 <= d <= 5,
        letters_of(t.take(d)) == letters_of(q),
    ensures
        exists|s: Seq<WordBitmap>| is_solution(c, s) && #[trigger] s[0] == q[0],
{
    let h = t.take(d);
    let r = t.skip(d);
    let x = letters_of(q);
    let top = q[0].0;
    lemma_chain_take(c, t, d);
    lemma_chain_count(c, h);
    lemma_chain_count(c, q);
    assert(q.len() == d);
    let u = q + r;
    assert(u.len() == 5);
    lemma_chain_top(c, q);
    lemma_letters_hold(h, 0);
    assert(h[0] == t[0]);
    assert forall|j: int| 0 <= j < r.len() implies (forall|i: int|
        0 <= i < q.len() ==> (#[trigger] q[i]).0 & r[j].0 == 0) && (#[trigger] r[j]).0
        < top by {
        let y = r[j].0;
        assert(r[j] == t[d + j]);
        assert forall|i: int| 0 <= i < h.len() implies (#[trigger] h[i]).0 & y == 0 by {
            assert(h[i] == t[i]);
        }
        lemma_letters_disjoint(h, y);
        lemma_letters_disjoint(q, y);
        let t0 = t[0].0;
        assert(y < t0);
        assert((y < t0 && x & y == 0 && t0 & x == t0 && x & top == top && (x & !top) < top) ==> y
            < top) by (bit_vector);
    }
    assert forall|a: int| 0 <= a < u.len() implies c.contains(#[trigger] u[a]) && u[a].0 != 0
        && u[a].0 <= top by {
        if a < q.len() {
            assert(u[a] == q[a]);
        } else {
            assert(u[a] == r[a - q.len()]);
            assert(r[a - q.len()] == t[d + (a - q.len())]);
        }
        lemma_word_nonzero(u[a]);
    }
    assert forall|a: int, b: int|
        #![trigger u[a], u[b]]
        0 <= a < b < u.len() implies u[a].0 & u[b].0 == 0 && u[a] != u[b] by {
        let m = u[a].0;
        let n = u[b].0;
        if b < q.len() {
            assert(u[a] == q[a] && u[b] == q[b]);
        } else if a < q.len() {
            assert(u[a] == q[a]);
            assert(u[b] == r[b - q.len()]);
        } else {
            assert(u[a] == r[a - q.len()] && u[b] == r[b - q.len()]);
            assert(r[a - q.len()] == t[d + (a - q.len())]);
            assert(r[b - q.len()] == t[d + (b - q.len())]);
        }
        assert(m != 0 && m & n == 0 ==> m != n) by (bit_vector);
    }
    let leq = |a: WordBitmap, b: WordBitmap| a.0 >= b.0;
    assert(total_ordering(leq));
    u.lemma_sort_by_ensures(leq);
    let s = u.sort_by(leq);
    u.to_multiset_ensures();
    s.to_multiset_ensures();
    assert(u.no_duplicates());
    u.lemma_multiset_has_no_duplicates();
    s.lemma_multiset_has_no_duplicates_conv();
    assert(s.len() == 5);
    assert forall|i: int| 0 <= i < s.len() implies u.contains(#[trigger] s[i]) by {
        assert(s.contains(s[i]));
        assert(s.to_multiset().count(s[i]) > 0);
    }
    assert forall|i: int| 0 <= i < s.len() implies c.contains(#[trigger] s[i]) by {
        assert(u.contains(s[i]));
    }
    assert forall|i: int, j: int|
        #![trigger s[i], s[j]]
        0 <= i < j < s.len() implies s[j].0 < s[i].0 && s[i].0 & s[j].0 == 0 by {
        assert(leq(s[i], s[j]));
        assert(s[i] != s[j]);
        assert(u.contains(s[i]) && u.contains(s[j]));
        let a = choose|a: int| 0 <= a < u.len() && u[a] == s[i];
        let b = choose|b: int| 0 <= b < u.len() && u[b] == s[j];
        if a < b {
            assert(u[a].0 & u[b].0 == 0);
        } else {
            assert(u[b].0 & u[a].0 == 0);
            let m = u[a].0;
            let n = u[b].0;
            assert(n & m == 0 ==> m & n == 0) by (bit_vector);
        }
    }
    assert(s[0] == q[0]) by {
        assert(u[0] == q[0]);
        assert(u.contains(q[0]));
        assert(u.to_multiset().count(q[0]) > 0);
        assert(s.contains(q[0]));
        let k = choose|k: int| 0 <= k < s.len() && s[k] == q[0];
        if k > 0 {
            assert(leq(s[0], s[k]));
        }
        assert(u.contains(s[0]));
        let a = choose|a: int| 0 <= a < u.len() && u[a] == s[0];
        assert(u[a].0 <= top);
        assert(s[0].0 == q[0].0);
    }
    assert(is_solution(c, s));
}

/// Where no solution begins with `first`, the letters of every chain that
/// begins with `first` are a dead end.
pub proof fn lemma_rooted_dead(c: Seq<WordBitmap>, first: WordBitmap, x: u32)
    requires
        corpus_ok(c),
        begins_none(c, first),
        rooted(c, x, first),
    ensures
        dead(c, x),
{
    assert forall|t: Seq<WordBitmap>, d: int| is_solution(c, t) && 1 <= d <= 5 implies letters_of(
        #[trigger] t.take(d),
    ) != x by {
        if letters_of(t.take(d)) == x {
            let q = choose|q: Seq<WordBitmap>|
                is_chain(c, q) && q.len() >= 1 && q[0] == first && #[trigger] letters_of(q) == x;
            lemma_exchange(c, q, t, d);
            let s = choose|s: Seq<WordBitmap>| is_solution(c, s) && #[trigger] s[0] == q[0];
            assert(s[0] != first);
        }
    }
}

/// What `possible` keeps: the words of the corpus that share no letter with
/// `used`, still in strictly ascending order.
pub proof fn lemma_possible(c: Seq<WordBitmap>, used: u32)
    requires
        corpus_ok(c),
    ensures
        forall|w: WordBitmap| #[trigger]
            possible(c, used).contains(w) <==> (c.contains(w) && w.0 & used == 0),
        forall|i: int, j: int|
            #![trigger possible(c, used)[i], possible(c, used)[j]]
            0 <= i < j < possible(c, used).len() ==> possible(c, used)[i].0 < possible(
                c,
                used,
            )[j].0,
        possible(c, used).len() <= c.len(),
    decreases c.len(),
{
    let r = possible(c, used);
    if c.len() == 0 {
    } else {
        let f = c.drop_last();
        let l = c.last();
        let rf = possible(f, used);
        assert(corpus_ok(f)) by {
            assert forall|i: int| 0 <= i < f.len() implies (#[trigger] f[i]).is_word() by {
                assert(f[i] == c[i]);
            }
            assert forall|i: int, j: int|
                #![trigger f[i], f[j]]
                0 <= i < j < f.len() implies f[i].0 < f[j].0 by {
                assert(f[i] == c[i] && f[j] == c[j]);
            }
        }
        lemma_possible(f, used);
        assert forall|w: WordBitmap| #[trigger]
            r.contains(w) <==> (c.contains(w) && w.0 & used == 0) by {
            if r.contains(w) {
                let k = choose|k: int| 0 <= k < r.len() && r[k] == w;
                if k < rf.len() {
                    assert(rf[k] == w);
                    assert(rf.contains(w));
                    let m = choose|m: int| 0 <= m < f.len() && f[m] == w;
                    assert(c[m] == w);
                } else {
                    assert(w == l);
                    assert(c[c.len() - 1] == w);
                }
            }
            if c.contains(w) && w.0 & used == 0 {
                let m = choose|m: int| 0 <= m < c.len() && c[m] == w;
                if m < f.len() {
                    assert(f[m] == w);
                    assert(rf.contains(w));
                    let k = choose|k: int| 0 <= k < rf.len() && rf[k] == w;
                    assert(r[k] == w);
                } else {
                    assert(r[r.len() - 1] == w);
                }
            }
        }
        assert forall|i: int, j: int|
            #![trigger r[i], r[j]]
            0 <= i < j < r.len() implies r[i].0 < r[j].0 by {
            if j < rf.len() {
                assert(r[i] == rf[i] && r[j] == rf[j]);
            } else {
                assert(r[j] == l);
                assert(r[i] == rf[i]);
                assert(rf.contains(rf[i]));
                let m = choose|m: int| 0 <= m < f.len() && f[m] == rf[i];
                assert(c[m].0 < c[c.len() - 1].0);
            }
        }
    }
}

/// With no letter used, every word of the corpus is possible.
pub proof fn lemma_possible_all(c: Seq<WordBitmap>)
    ensures
        possible(c, 0) == c,
    decreases c.len(),
{
    if c.len() == 0 {
        assert(possible(c, 0) =~= c);
    } else {
        lemma_possible_all(c.drop_last());
        let x = c.last().0;
        assert(x & 0 == 0) by (bit_vector);
        assert(possible(c, 0) =~= c);
    }
}

} // verus!
