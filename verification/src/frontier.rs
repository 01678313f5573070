//! How far a search has come: which solutions lie behind its cursors.

use crate::letters::WordBitmap;
use crate::model::{
    corpus_ok, dead, in_batch, is_chain, is_solution, lemma_letters_disjoint, lemma_possible,
    lemma_possible_all, letters_of, possible,
};
use vstd::prelude::*;

verus! {

/// Compared with the first word, which has no word before it.
pub const NO_BOUND: u32 = 0xffff_ffff;

/// A cursor value above every word: nothing is left to scan.
pub open spec fn past_all() -> int {
    0x1_0000_0000
}

/// The words chosen so far: the stack without the bound in its first slot.
pub open spec fn chosen(stack: Seq<WordBitmap>, depth: int) -> Seq<WordBitmap> {
    stack.subrange(1, depth + 1)
}

/// The word at which a scan of `list` stands, as a number.
pub open spec fn cursor_value(list: Seq<WordBitmap>, i: int) -> int {
    if 0 <= i < list.len() {
        list[i].0 as int
    } else {
        past_all()
    }
}

/// `t` begins with the `d` words chosen first.
pub open spec fn follows(t: Seq<WordBitmap>, stack: Seq<WordBitmap>, d: int) -> bool {
    forall|j: int| 0 <= j < d ==> (#[trigger] t[j]) == stack[j + 1]
}

/// The search has passed `t`: at some depth `t` goes with the chosen words
/// up to there and then takes a word below the cursor of that depth. Above
/// `depth` the cursor is the word chosen there.
pub open spec fn explored(t: Seq<WordBitmap>, stack: Seq<WordBitmap>, depth: int, cur: int) -> bool
    decreases depth,
{
    ||| follows(t, stack, depth) && (t[depth].0 as int) < cur
    ||| depth > 0 && explored(t, stack, depth - 1, stack[depth].0 as int)
}

/// `s` and `t` hold the same words at their first `d` places.
pub open spec fn agree(s: Seq<WordBitmap>, t: Seq<WordBitmap>, d: int) -> bool {
    forall|j: int| 0 <= j < d ==> (#[trigger] s[j]) == t[j]
}

/// `s` comes before `t` where the two are compared word by word: at the
/// first place at which they differ, `s` has the smaller word.
pub open spec fn comes_before(s: Seq<WordBitmap>, t: Seq<WordBitmap>) -> bool {
    exists|d: int| 0 <= d < 5 && #[trigger] agree(s, t, d) && s[d].0 < t[d].0
}

/// `t` is one of the solutions found so far.
pub open spec fn listed(out: Seq<Vec<WordBitmap>>, t: Seq<WordBitmap>) -> bool {
    exists|k: int| 0 <= k < out.len() && (#[trigger] out[k])@ == t
}

/// The solutions found so far are those of the batch that the search has passed.
pub open spec fn complete(
    c: Seq<WordBitmap>,
    start: int,
    end: int,
    out: Seq<Vec<WordBitmap>>,
    stack: Seq<WordBitmap>,
    depth: int,
    cur: int,
) -> bool {
    forall|t: Seq<WordBitmap>| #[trigger]
        is_solution(c, t) && in_batch(c, start, end, t[0]) ==> (listed(out, t) <==> explored(
            t,
            stack,
            depth,
            cur,
        ))
}

/// The cursor of depth `d` stands just behind the word chosen there.
pub open spec fn placed(
    c: Seq<WordBitmap>,
    stack: Seq<WordBitmap>,
    next: Seq<usize>,
    d: int,
) -> bool {
    let list = possible(c, letters_of(chosen(stack, d)));
    1 <= next[d] <= list.len() && list[next[d] - 1] == stack[d + 1]
}

/// The stack and the cursors of a search at `depth`.
pub open spec fn frames_ok(
    c: Seq<WordBitmap>,
    start: int,
    end: int,
    stack: Seq<WordBitmap>,
    next: Seq<usize>,
    depth: int,
    used: u32,
) -> bool {
    &&& 0 <= depth <= 4
    &&& stack.len() == 6
    &&& next.len() == 5
    &&& stack[0].0 == NO_BOUND
    &&& is_chain(c, chosen(stack, depth))
    &&& used == letters_of(chosen(stack, depth))
    &&& start <= next[0] <= end
    &&& depth >= 1 ==> start < next[0]
    &&& forall|d: int| 1 <= d < 5 ==> #[trigger] next[d] <= c.len()
    &&& forall|d: int| 0 <= d < depth ==> #[trigger] placed(c, stack, next, d)
}

/// What lies behind the cursors depends on the chosen words alone.
pub proof fn lemma_explored_frame(
    t: Seq<WordBitmap>,
    s1: Seq<WordBitmap>,
    s2: Seq<WordBitmap>,
    depth: int,
    cur: int,
)
    requires
        0 <= depth,
        forall|j: int| 1 <= j <= depth ==> s1[j] == s2[j],
    ensures
        explored(t, s1, depth, cur) == explored(t, s2, depth, cur),
    decreases depth,
{
    assert(follows(t, s1, depth) == follows(t, s2, depth)) by {
        if follows(t, s1, depth) {
            assert forall|j: int| 0 <= j < depth implies (#[trigger] t[j]) == s2[j + 1] by {
                assert(s1[j + 1] == s2[j + 1]);
            }
        }
        if follows(t, s2, depth) {
            assert forall|j: int| 0 <= j < depth implies (#[trigger] t[j]) == s1[j + 1] by {
                assert(s1[j + 1] == s2[j + 1]);
            }
        }
    }
    if depth > 0 {
        lemma_explored_frame(t, s1, s2, depth - 1, s1[depth].0 as int);
    }
}

/// A solution that goes with the chosen words takes its next word from the
/// list of possible words, and that word is below the last chosen one.
pub proof fn lemma_next_word(
    c: Seq<WordBitmap>,
    t: Seq<WordBitmap>,
    stack: Seq<WordBitmap>,
    depth: int,
)
    requires
        corpus_ok(c),
        is_solution(c, t),
        0 <= depth <= 4,
        stack.len() == 6,
        follows(t, stack, depth),
    ensures
        possible(c, letters_of(chosen(stack, depth))).contains(t[depth]),
        t.take(depth) == chosen(stack, depth),
        depth >= 1 ==> t[depth].0 < stack[depth].0,
{
    let p = chosen(stack, depth);
    let w = t[depth];
    assert forall|i: int| 0 <= i < p.len() implies (#[trigger] p[i]).0 & w.0 == 0 by {
        assert(t[i] == stack[i + 1]);
        assert(t[i].0 & t[depth].0 == 0);
    }
    lemma_letters_disjoint(p, w.0);
    lemma_possible(c, letters_of(p));
    let a = w.0;
    let b = letters_of(p);
    assert(b & a == 0 ==> a & b == 0) by (bit_vector);
    assert(c.contains(t[depth]));
    assert(t.take(depth) =~= p) by {
        assert forall|i: int| 0 <= i < depth implies t.take(depth)[i] == p[i] by {
            assert(t[i] == stack[i + 1]);
        }
    }
    if depth >= 1 {
        assert(t[depth - 1] == stack[depth - 1 + 1]);
        assert(t[depth].0 < t[depth - 1].0);
    }
}

/// In an ascending list a member is below the cursor after `i` exactly when it
/// is below the cursor at `i` or is the word at `i`.
pub proof fn lemma_cursor_step(list: Seq<WordBitmap>, i: int, w: WordBitmap)
    requires
        forall|a: int, b: int|
            #![trigger list[a], list[b]]
            0 <= a < b < list.len() ==> list[a].0 < list[b].0,
        list.contains(w),
        0 <= i < list.len(),
    ensures
        ((w.0 as int) < cursor_value(list, i + 1)) <==> ((w.0 as int) < cursor_value(list, i) || w
            == list[i]),
{
    let k = choose|k: int| 0 <= k < list.len() && list[k] == w;
    if k < i {
        assert(list[k].0 < list[i].0);
        if i + 1 < list.len() {
            assert(list[k].0 < list[i + 1].0);
        }
    } else if k == i {
        if i + 1 < list.len() {
            assert(list[i].0 < list[i + 1].0);
        }
    } else {
        assert(list[i].0 < list[k].0);
        if k > i + 1 {
            assert(list[i + 1].0 < list[k].0);
        }
    }
}

/// Moving the cursor of the current depth past the word at `i` passes the
/// solutions that take this word here, and no others.
pub proof fn lemma_advance(
    c: Seq<WordBitmap>,
    start: int,
    end: int,
    before: Seq<Vec<WordBitmap>>,
    after: Seq<Vec<WordBitmap>>,
    stack: Seq<WordBitmap>,
    depth: int,
    i: int,
)
    requires
        corpus_ok(c),
        0 <= depth <= 4,
        stack.len() == 6,
        0 <= i < possible(c, letters_of(chosen(stack, depth))).len(),
        complete(
            c,
            start,
            end,
            before,
            stack,
            depth,
            cursor_value(possible(c, letters_of(chosen(stack, depth))), i),
        ),
        forall|t: Seq<WordBitmap>| #[trigger]
            is_solution(c, t) && in_batch(c, start, end, t[0]) ==> (listed(after, t) <==> (listed(
                before,
                t,
            ) || (follows(t, stack, depth) && t[depth] == possible(
                c,
                letters_of(chosen(stack, depth)),
            )[i]))),
    ensures
        complete(
            c,
            start,
            end,
            after,
            stack,
            depth,
            cursor_value(possible(c, letters_of(chosen(stack, depth))), i + 1),
        ),
{
    let list = possible(c, letters_of(chosen(stack, depth)));
    lemma_possible(c, letters_of(chosen(stack, depth)));
    assert forall|t: Seq<WordBitmap>| #[trigger]
        is_solution(c, t) && in_batch(c, start, end, t[0]) implies (listed(after, t) <==> explored(
        t,
        stack,
        depth,
        cursor_value(list, i + 1),
    )) by {
        if follows(t, stack, depth) {
            lemma_next_word(c, t, stack, depth);
            lemma_cursor_step(list, i, t[depth]);
        }
    }
}

/// Once the scan of the current depth has stopped, every solution that goes
/// with the chosen words is behind it.
pub proof fn lemma_exhausted(
    c: Seq<WordBitmap>,
    start: int,
    end: int,
    out: Seq<Vec<WordBitmap>>,
    stack: Seq<WordBitmap>,
    depth: int,
    i: int,
)
    requires
        corpus_ok(c),
        0 <= depth <= 4,
        stack.len() == 6,
        0 <= i,
        complete(
            c,
            start,
            end,
            out,
            stack,
            depth,
            cursor_value(possible(c, letters_of(chosen(stack, depth))), i),
        ),
        ({
            let list = possible(c, letters_of(chosen(stack, depth)));
            ||| i >= list.len()
            ||| depth == 0 && i >= end
            ||| depth > 0 && list[i].0 >= stack[depth].0
        }),
    ensures
        complete(c, start, end, out, stack, depth, past_all()),
{
    let p = chosen(stack, depth);
    let list = possible(c, letters_of(p));
    lemma_possible(c, letters_of(p));
    assert forall|t: Seq<WordBitmap>| #[trigger]
        is_solution(c, t) && in_batch(c, start, end, t[0]) implies (listed(out, t) <==> explored(
        t,
        stack,
        depth,
        past_all(),
    )) by {
        if follows(t, stack, depth) {
            lemma_next_word(c, t, stack, depth);
            let w = t[depth];
            let k = choose|k: int| 0 <= k < list.len() && list[k] == w;
            if i < list.len() {
                if k < i {
                    assert(list[k].0 < list[i].0);
                } else if depth == 0 {
                    assert(p =~= Seq::<WordBitmap>::empty());
                    lemma_possible_all(c);
                    let m = choose|m: int| start <= m < end && 0 <= m < c.len() && c[m] == t[0];
                    if m < k {
                        assert(c[m].0 < c[k].0);
                    } else if k < m {
                        assert(c[k].0 < c[m].0);
                    }
                } else {
                    if i < k {
                        assert(list[i].0 < list[k].0);
                    }
                }
            }
        }
    }
}

/// Going one word deeper leaves the same solutions behind the cursors.
pub proof fn lemma_descend(
    c: Seq<WordBitmap>,
    start: int,
    end: int,
    out: Seq<Vec<WordBitmap>>,
    stack: Seq<WordBitmap>,
    depth: int,
    i: int,
)
    requires
        corpus_ok(c),
        0 <= depth < 4,
        stack.len() == 6,
        0 <= i < possible(c, letters_of(chosen(stack, depth))).len(),
        stack[depth + 1] == possible(c, letters_of(chosen(stack, depth)))[i],
        complete(
            c,
            start,
            end,
            out,
            stack,
            depth,
            cursor_value(possible(c, letters_of(chosen(stack, depth))), i),
        ),
    ensures
        complete(
            c,
            start,
            end,
            out,
            stack,
            depth + 1,
            cursor_value(possible(c, letters_of(chosen(stack, depth + 1))), 0),
        ),
{
    let deeper = possible(c, letters_of(chosen(stack, depth + 1)));
    lemma_possible(c, letters_of(chosen(stack, depth + 1)));
    assert forall|t: Seq<WordBitmap>| #[trigger]
        is_solution(c, t) && in_batch(c, start, end, t[0]) implies (listed(out, t) <==> explored(
        t,
        stack,
        depth + 1,
        cursor_value(deeper, 0),
    )) by {
        if follows(t, stack, depth + 1) {
            lemma_next_word(c, t, stack, depth + 1);
            let k = choose|k: int| 0 <= k < deeper.len() && deeper[k] == t[depth + 1];
            if k > 0 {
                assert(deeper[0].0 < deeper[k].0);
            }
        }
    }
}

/// Going back one word puts the cursor behind the word that was chosen
/// there, and what lies behind the cursors stays the same.
pub proof fn lemma_backtrack(
    c: Seq<WordBitmap>,
    start: int,
    end: int,
    out: Seq<Vec<WordBitmap>>,
    stack: Seq<WordBitmap>,
    next: Seq<usize>,
    depth: int,
)
    requires
        corpus_ok(c),
        1 <= depth <= 4,
        stack.len() == 6,
        next.len() == 5,
        placed(c, stack, next, depth - 1),
        complete(c, start, end, out, stack, depth, past_all()),
    ensures
        complete(
            c,
            start,
            end,
            out,
            stack,
            depth - 1,
            cursor_value(
                possible(c, letters_of(chosen(stack, depth - 1))),
                next[depth - 1] as int,
            ),
        ),
{
    let list = possible(c, letters_of(chosen(stack, depth - 1)));
    let n = next[depth - 1] as int;
    lemma_possible(c, letters_of(chosen(stack, depth - 1)));
    reveal_with_fuel(explored, 2);
    assert forall|t: Seq<WordBitmap>| #[trigger]
        is_solution(c, t) && in_batch(c, start, end, t[0]) implies (listed(out, t) <==> explored(
        t,
        stack,
        depth - 1,
        cursor_value(list, n),
    )) by {
        if follows(t, stack, depth - 1) {
            lemma_next_word(c, t, stack, depth - 1);
            lemma_cursor_step(list, n - 1, t[depth - 1]);
            if t[depth - 1] == stack[depth] {
                assert forall|j: int| 0 <= j < depth implies (#[trigger] t[j]) == stack[j + 1] by {
                }
            }
        }
        if follows(t, stack, depth) {
            assert(t[depth - 1] == stack[depth - 1 + 1]);
            assert forall|j: int| 0 <= j < depth - 1 implies (#[trigger] t[j]) == stack[j + 1] by {
            }
        }
    }
}

/// A solution that goes with the chosen words and takes a word at or above
/// the cursor has not been passed.
pub proof fn lemma_on_path(t: Seq<WordBitmap>, stack: Seq<WordBitmap>, depth: int, cur: int)
    requires
        0 <= depth,
        follows(t, stack, depth),
        t[depth].0 >= cur,
    ensures
        !explored(t, stack, depth, cur),
    decreases depth,
{
    if depth > 0 {
        assert(t[depth - 1] == stack[depth - 1 + 1]);
        assert forall|j: int| 0 <= j < depth - 1 implies (#[trigger] t[j]) == stack[j + 1] by {
        }
        lemma_on_path(t, stack, depth - 1, stack[depth].0 as int);
    }
}

/// What the search has passed comes before whatever goes with the chosen
/// words and takes a word at or above the cursor.
pub proof fn lemma_passed_comes_before(
    t: Seq<WordBitmap>,
    f: Seq<WordBitmap>,
    stack: Seq<WordBitmap>,
    depth: int,
    cur: int,
)
    requires
        0 <= depth <= 4,
        explored(t, stack, depth, cur),
        follows(f, stack, depth),
        f[depth].0 >= cur,
    ensures
        comes_before(t, f),
    decreases depth,
{
    if follows(t, stack, depth) && (t[depth].0 as int) < cur {
        assert forall|j: int| 0 <= j < depth implies (#[trigger] t[j]) == f[j] by {
            assert(f[j] == stack[j + 1]);
        }
        assert(agree(t, f, depth));
    } else {
        assert(f[depth - 1] == stack[depth - 1 + 1]);
        assert forall|j: int| 0 <= j < depth - 1 implies (#[trigger] f[j]) == stack[j + 1] by {
        }
        lemma_passed_comes_before(t, f, stack, depth - 1, stack[depth].0 as int);
    }
}

/// Writing a slot above the chosen words changes neither the frames nor
/// what lies behind the cursors.
pub proof fn lemma_frame_set(
    c: Seq<WordBitmap>,
    start: int,
    end: int,
    out: Seq<Vec<WordBitmap>>,
    stack: Seq<WordBitmap>,
    next: Seq<usize>,
    depth: int,
    used: u32,
    cur: int,
    w: WordBitmap,
)
    requires
        frames_ok(c, start, end, stack, next, depth, used),
        complete(c, start, end, out, stack, depth, cur),
    ensures
        frames_ok(c, start, end, stack.update(depth + 1, w), next, depth, used),
        complete(c, start, end, out, stack.update(depth + 1, w), depth, cur),
        chosen(stack.update(depth + 1, w), depth) == chosen(stack, depth),
{
    let s2 = stack.update(depth + 1, w);
    assert(chosen(s2, depth) =~= chosen(stack, depth));
    assert forall|d: int| 0 <= d < depth implies #[trigger] placed(c, s2, next, d) by {
        assert(placed(c, stack, next, d));
        assert(chosen(s2, d) =~= chosen(stack, d));
    }
    assert forall|t: Seq<WordBitmap>| #[trigger]
        is_solution(c, t) && in_batch(c, start, end, t[0]) implies (listed(out, t) <==> explored(
        t,
        s2,
        depth,
        cur,
    )) by {
        lemma_explored_frame(t, stack, s2, depth, cur);
    }
}

/// Before any word is scanned, no solution of the batch has been passed.
pub proof fn lemma_initial(c: Seq<WordBitmap>, start: int, end: int, stack: Seq<WordBitmap>)
    requires
        corpus_ok(c),
        0 <= start,
    ensures
        complete(
            c,
            start,
            end,
            Seq::<Vec<WordBitmap>>::empty(),
            stack,
            0,
            cursor_value(possible(c, 0), start),
        ),
{
    lemma_possible_all(c);
    assert forall|t: Seq<WordBitmap>| #[trigger]
        is_solution(c, t) && in_batch(c, start, end, t[0]) implies (listed(
        Seq::<Vec<WordBitmap>>::empty(),
        t,
    ) <==> explored(t, stack, 0, cursor_value(c, start))) by {
        let m = choose|m: int| start <= m < end && 0 <= m < c.len() && c[m] == t[0];
        if start < m {
            assert(c[start].0 < c[m].0);
        }
    }
}

/// A word of the corpus that is below the last word of a chain and shares
/// no letter with the chain makes the chain one word longer.
pub proof fn lemma_chain_push(c: Seq<WordBitmap>, p: Seq<WordBitmap>, w: WordBitmap)
    requires
        is_chain(c, p),
        c.contains(w),
        letters_of(p) & w.0 == 0,
        p.len() > 0 ==> w.0 < p.last().0,
    ensures
        is_chain(c, p.push(w)),
        letters_of(p.push(w)) == letters_of(p) | w.0,
{
    let grown = p.push(w);
    assert(grown.drop_last() =~= p);
    lemma_letters_disjoint(p, w.0);
    assert forall|i: int| 0 <= i < grown.len() implies c.contains(#[trigger] grown[i]) by {
        if i < p.len() {
            assert(grown[i] == p[i]);
        }
    }
    assert forall|i: int, j: int|
        #![trigger grown[i], grown[j]]
        0 <= i < j < grown.len() implies grown[j].0 < grown[i].0 && grown[i].0 & grown[j].0 == 0 by {
        assert(grown[i] == p[i]);
        if j < p.len() {
            assert(grown[j] == p[j]);
        } else {
            assert(p[i].0 & w.0 == 0);
            if i < p.len() - 1 {
                assert(p[p.len() - 1].0 < p[i].0);
            }
        }
    }
}

/// A solution that takes the words chosen so far and then `w` begins with
/// the letters of all of these, so no such solution passes a dead end.
pub proof fn lemma_dead_skip(
    c: Seq<WordBitmap>,
    t: Seq<WordBitmap>,
    stack: Seq<WordBitmap>,
    depth: int,
    w: WordBitmap,
)
    requires
        corpus_ok(c),
        0 <= depth <= 4,
        stack.len() == 6,
        is_solution(c, t),
        follows(t, stack, depth),
        t[depth] == w,
    ensures
        !dead(c, letters_of(chosen(stack, depth)) | w.0),
{
    lemma_next_word(c, t, stack, depth);
    let h = t.take(depth + 1);
    assert(h.drop_last() =~= t.take(depth));
    assert(h.last() == w);
    assert(letters_of(h) == letters_of(chosen(stack, depth)) | w.0);
}

} // verus!
