//! The depth-five backtracking search over one batch of first words.

use crate::candidates::{
    candidates_clear, candidates_drain, candidates_insert, candidates_new, index_set_items,
};
use crate::dead_ends::DeadEnds;
use crate::frontier::{
    chosen, comes_before, complete, cursor_value, explored, follows, frames_ok, lemma_advance,
    lemma_backtrack, lemma_chain_push, lemma_dead_skip, lemma_descend, lemma_exhausted,
    lemma_frame_set, lemma_initial, lemma_on_path, lemma_passed_comes_before, listed, past_all,
    placed, NO_BOUND,
};
use crate::letters::{WordBitmap, LETTER_MASK};
use crate::model::{
    begins_none, corpus_ok, dead, explained, first_words_marked, in_batch, is_chain, is_solution,
    lemma_chain_count, lemma_chain_take, lemma_letters_disjoint, lemma_possible,
    lemma_possible_all, lemma_rooted_dead, letters_of, marks_explained, possible, rooted,
    store_sound,
};
use crate::possible::{cache_ok, get_possible_words};
use std::collections::HashMap;
use std::ops::Range;
use vstd::prelude::*;

verus! {

/// Every entry is a solution that begins in the batch, none comes twice, and
/// each comes before the next when compared word by word.
pub open spec fn sound_out(
    c: Seq<WordBitmap>,
    start: int,
    end: int,
    out: Seq<Vec<WordBitmap>>,
) -> bool {
    &&& forall|k: int|
        0 <= k < out.len() ==> is_solution(c, (#[trigger] out[k])@) && in_batch(
            c,
            start,
            end,
            out[k]@[0],
        )
    &&& forall|j: int, k: int|
        #![trigger out[j], out[k]]
        0 <= j < k < out.len() ==> out[j]@ != out[k]@ && comes_before(out[j]@, out[k]@)
}

/// `out` holds each solution whose first word stands in the batch, once, and
/// nothing else.
pub open spec fn found_all(
    c: Seq<WordBitmap>,
    start: int,
    end: int,
    out: Seq<Vec<WordBitmap>>,
) -> bool {
    &&& sound_out(c, start, end, out)
    &&& forall|t: Seq<WordBitmap>| #[trigger]
        is_solution(c, t) && in_batch(c, start, end, t[0]) ==> listed(out, t)
}

/// No solution found so far begins with `first`.
pub open spec fn none_under(out: Seq<Vec<WordBitmap>>, first: WordBitmap) -> bool {
    forall|k: int| 0 <= k < out.len() ==> (#[trigger] out[k])@[0] != first
}

/// Once the first word at place `n - 1` is done, and is marked if it
/// begins no solution, the first words up to `n` are dealt with.
proof fn lemma_first_word_done(
    c: Seq<WordBitmap>,
    start: int,
    n: int,
    before: Set<u32>,
    after: Set<u32>,
)
    requires
        1 <= n <= c.len(),
        first_words_marked(c, start, n - 1, before),
        before.subset_of(after),
        begins_none(c, c[n - 1]) ==> after.contains(c[n - 1].0),
    ensures
        first_words_marked(c, start, n, after),
{
    assert forall|i: int|
        start <= i < n && 0 <= i < c.len() && begins_none(c, #[trigger] c[i]) implies after.contains(
        c[i].0,
    ) by {
        if i < n - 1 {
            assert(before.contains(c[i].0));
        }
    }
}

/// Marks every state in `drained`.
fn commit_dead_ends(
    dead_ends: &mut DeadEnds,
    drained: &Vec<u32>,
    Ghost(c): Ghost<Seq<WordBitmap>>,
    Ghost(start): Ghost<int>,
    Ghost(end): Ghost<int>,
    Ghost(before): Ghost<Set<u32>>,
)
    requires
        old(dead_ends).wf(),
        store_sound(c, old(dead_ends)@),
        before.subset_of(old(dead_ends)@),
        marks_explained(c, start, end, before, old(dead_ends)@),
        forall|j: int|
            0 <= j < drained@.len() ==> dead(c, #[trigger] drained@[j]) && drained@[j]
                <= LETTER_MASK && explained(c, start, end, drained@[j]),
    ensures
        final(dead_ends).wf(),
        store_sound(c, final(dead_ends)@),
        before.subset_of(final(dead_ends)@),
        old(dead_ends)@.subset_of(final(dead_ends)@),
        marks_explained(c, start, end, before, final(dead_ends)@),
        forall|s: u32|
            final(dead_ends)@.contains(s) <==> (old(dead_ends)@.contains(s) || drained@.contains(
                s,
            )),
{
    let mut k: usize = 0;
    while k < drained.len()
        invariant
            k <= drained@.len(),
            dead_ends.wf(),
            store_sound(c, dead_ends@),
            before.subset_of(dead_ends@),
            marks_explained(c, start, end, before, dead_ends@),
            forall|j: int|
                0 <= j < drained@.len() ==> dead(c, #[trigger] drained@[j]) && drained@[j]
                    <= LETTER_MASK && explained(c, start, end, drained@[j]),
            forall|s: u32|
                dead_ends@.contains(s) <==> (old(dead_ends)@.contains(s) || drained@.take(
                    k as int,
                ).contains(s)),
        decreases drained.len() - k,
    {
        let cand = drained[k];
        dead_ends.mark_dead_end(WordBitmap(cand));
        proof {
            let shorter = drained@.take(k as int);
            let longer = drained@.take(k + 1);
            assert(longer.drop_last() =~= shorter);
            assert forall|s: u32|
                dead_ends@.contains(s) <==> (old(dead_ends)@.contains(s) || longer.contains(
                    s,
                )) by {
                crate::corpus::lemma_contains_step(shorter, longer, s);
            }
        }
        k += 1;
    }
    proof {
        assert(drained@.take(k as int) =~= drained@);
    }
}

/// Finds every solution whose first word stands in `word_list` at a position
/// in `first_word_range`. States under a first word that begins no solution
/// are marked in `dead_ends` once that word is done, and marked states are
/// skipped.
#[verifier::rlimit(60)]
pub fn calculate_solution_in_thread(
    first_word_range: Range<usize>,
    word_list: &Vec<WordBitmap>,
    dead_ends: &mut DeadEnds,
) -> (out: Vec<Vec<WordBitmap>>)
    requires
        corpus_ok(word_list@),
        first_word_range.start <= first_word_range.end,
        old(dead_ends).wf(),
        store_sound(word_list@, old(dead_ends)@),
    ensures
        final(dead_ends).wf(),
        store_sound(word_list@, final(dead_ends)@),
        old(dead_ends)@.subset_of(final(dead_ends)@),
        marks_explained(
            word_list@,
            first_word_range.start as int,
            first_word_range.end as int,
            old(dead_ends)@,
            final(dead_ends)@,
        ),
        first_words_marked(
            word_list@,
            first_word_range.start as int,
            first_word_range.end as int,
            final(dead_ends)@,
        ),
        found_all(
            word_list@,
            first_word_range.start as int,
            first_word_range.end as int,
            out@,
        ),
{
    let ghost c = word_list@;
    let ghost marked_before = dead_ends@;
    let start: usize = first_word_range.start;
    let end: usize = first_word_range.end;
    let mut next_to_explore_for_level: Vec<usize> = vec![start, 0usize, 0usize, 0usize, 0usize];
    let mut cur_used_letters = WordBitmap(0);
    let mut depth: usize = 0;
    let mut available_words_for_letters: HashMap<u32, Vec<WordBitmap>> = HashMap::new();
    let mut dead_ends_candidates = candidates_new();
    let mut word_stack: Vec<WordBitmap> = vec![
        WordBitmap(NO_BOUND),
        WordBitmap(0),
        WordBitmap(0),
        WordBitmap(0),
        WordBitmap(0),
        WordBitmap(0),
    ];
    let mut no_solutions_for_current_first_word = true;
    let mut out: Vec<Vec<WordBitmap>> = Vec::new();
    let mut running = true;
    proof {
        assert(chosen(word_stack@, 0) =~= Seq::<WordBitmap>::empty());
        lemma_initial(c, start as int, end as int, word_stack@);
        assert(out@ =~= Seq::<Vec<WordBitmap>>::empty());
    }
    while running
        invariant
            c == word_list@,
            corpus_ok(c),
            start <= end,
            dead_ends.wf(),
            store_sound(c, dead_ends@),
            marked_before.subset_of(dead_ends@),
            marks_explained(c, start as int, end as int, marked_before, dead_ends@),
            first_words_marked(
                c,
                start as int,
                if depth >= 1 {
                    next_to_explore_for_level@[0] - 1
                } else if running {
                    next_to_explore_for_level@[0] as int
                } else {
                    end as int
                },
                dead_ends@,
            ),
            cache_ok(c, available_words_for_letters@),
            frames_ok(
                c,
                start as int,
                end as int,
                word_stack@,
                next_to_explore_for_level@,
                depth as int,
                cur_used_letters.0,
            ),
            sound_out(c, start as int, end as int, out@),
            running ==> complete(
                c,
                start as int,
                end as int,
                out@,
                word_stack@,
                depth as int,
                cursor_value(
                    possible(c, cur_used_letters.0),
                    next_to_explore_for_level@[depth as int] as int,
                ),
            ),
            !running ==> depth == 0,
            !running ==> found_all(c, start as int, end as int, out@),
            running && depth == 0 ==> index_set_items(dead_ends_candidates).len() == 0,
            depth >= 1 ==> forall|x: u32| #[trigger]
                index_set_items(dead_ends_candidates).contains(x) ==> rooted(c, x, word_stack@[1]),
            depth == 0 ==> no_solutions_for_current_first_word,
            depth >= 1 ==> (no_solutions_for_current_first_word <==> none_under(
                out@,
                word_stack@[1],
            )),
        decreases
            end - next_to_explore_for_level@[0],
            c.len() - next_to_explore_for_level@[1],
            c.len() - next_to_explore_for_level@[2],
            c.len() - next_to_explore_for_level@[3],
            c.len() - next_to_explore_for_level@[4],
            depth + if running { 1int } else { 0int },
    {
        let curwordlist = get_possible_words(
            &mut available_words_for_letters,
            cur_used_letters,
            word_list,
        );
        let ghost list = curwordlist@;
        let ghost marked_at_head = dead_ends@;
        let ghost first_cursor = next_to_explore_for_level@[depth as int];
        let mut index: usize = next_to_explore_for_level[depth];
        let mut scanning = true;
        let mut descend = false;
        proof {
            lemma_possible(c, cur_used_letters.0);
            lemma_chain_count(c, chosen(word_stack@, depth as int));
        }
        while scanning && index < curwordlist.len() && (depth > 0 || index < end)
            invariant
                corpus_ok(c),
                start <= end,
                dead_ends.wf(),
                store_sound(c, dead_ends@),
                list == curwordlist@,
                list == possible(c, cur_used_letters.0),
                marked_at_head == dead_ends@,
                list.len() <= c.len(),
                cur_used_letters.0 <= LETTER_MASK,
                frames_ok(
                    c,
                    start as int,
                    end as int,
                    word_stack@,
                    next_to_explore_for_level@,
                    depth as int,
                    cur_used_letters.0,
                ),
                first_cursor == next_to_explore_for_level@[depth as int],
                first_cursor <= index,
                first_words_marked(
                    c,
                    start as int,
                    if depth >= 1 {
                        next_to_explore_for_level@[0] - 1
                    } else {
                        index as int
                    },
                    dead_ends@,
                ),
                depth == 0 ==> index <= end,
                sound_out(c, start as int, end as int, out@),
                complete(
                    c,
                    start as int,
                    end as int,
                    out@,
                    word_stack@,
                    depth as int,
                    cursor_value(list, index as int),
                ),
                descend ==> !scanning && depth < 4,
                !scanning ==> index < list.len() && (depth == 0 ==> index < end),
                !scanning && descend ==> list[index as int].0 < word_stack@[depth as int].0,
                !scanning && !descend ==> depth > 0 && list[index as int].0
                    >= word_stack@[depth as int].0,
                depth == 0 ==> no_solutions_for_current_first_word,
                depth >= 1 ==> (no_solutions_for_current_first_word <==> none_under(
                    out@,
                    word_stack@[1],
                )),
                depth >= 1 ==> forall|x: u32| #[trigger]
                    index_set_items(dead_ends_candidates).contains(x) ==> rooted(
                        c,
                        x,
                        word_stack@[1],
                    ),
            decreases list.len() - index + if scanning { 1int } else { 0int },
        {
            let word = curwordlist[index];
            proof {
                lemma_possible(c, cur_used_letters.0);
                assert(list.contains(list[index as int]));
                assert(c.contains(word));
                assert(word.is_word());
            }
            if word.0 < word_stack[depth].0 {
                let mut cand_cur_used_letters = cur_used_letters;
                cand_cur_used_letters.bitor_assign(word);
                proof {
                    let a = cur_used_letters.0;
                    let b = word.0;
                    assert(a <= 0x03ff_ffffu32 && b <= 0x03ff_ffffu32 ==> (a | b) <= 0x03ff_ffffu32)
                        by (bit_vector);
                }
                if dead_ends.is_dead_end(cand_cur_used_letters) {
                    proof {
                        if depth == 0 {
                            assert(chosen(word_stack@, 0) =~= Seq::<WordBitmap>::empty());
                            lemma_possible_all(c);
                            let b = word.0;
                            assert(0u32 | b == b) by (bit_vector);
                        }
                        assert(dead(c, cand_cur_used_letters.0));
                        assert forall|t: Seq<WordBitmap>| #[trigger]
                            is_solution(c, t) && in_batch(c, start as int, end as int, t[0])
                            && follows(t, word_stack@, depth as int) && t[depth as int]
                            == list[index as int] implies listed(out@, t) by {
                            lemma_dead_skip(c, t, word_stack@, depth as int, word);
                        }
                        lemma_advance(
                            c,
                            start as int,
                            end as int,
                            out@,
                            out@,
                            word_stack@,
                            depth as int,
                            index as int,
                        );
                    }
                    index += 1;
                } else if depth + 1 == 5 {
                    proof {
                        lemma_frame_set(
                            c,
                            start as int,
                            end as int,
                            out@,
                            word_stack@,
                            next_to_explore_for_level@,
                            depth as int,
                            cur_used_letters.0,
                            cursor_value(list, index as int),
                            word,
                        );
                    }
                    word_stack.set(depth + 1, word);
                    no_solutions_for_current_first_word = false;
                    let found: Vec<WordBitmap> = vec![
                        word_stack[1],
                        word_stack[2],
                        word_stack[3],
                        word_stack[4],
                        word_stack[5],
                    ];
                    let ghost before = out@;
                    proof {
                        let p = chosen(word_stack@, 4);
                        let a = cur_used_letters.0;
                        let b = word.0;
                        assert(b & a == 0 ==> a & b == 0) by (bit_vector);
                        lemma_chain_push(c, p, word);
                        assert(found@ =~= p.push(word));
                        assert(placed(c, word_stack@, next_to_explore_for_level@, 0));
                        assert(chosen(word_stack@, 0) =~= Seq::<WordBitmap>::empty());
                        lemma_possible_all(c);
                        assert(in_batch(c, start as int, end as int, found@[0]));
                        assert(follows(found@, word_stack@, 4));
                        lemma_on_path(found@, word_stack@, 4, cursor_value(list, index as int));
                        assert(!listed(before, found@));
                        assert forall|j: int| 0 <= j < before.len() implies comes_before(
                            (#[trigger] before[j])@,
                            found@,
                        ) by {
                            assert(listed(before, before[j]@));
                            assert(is_solution(c, before[j]@));
                            lemma_passed_comes_before(
                                before[j]@,
                                found@,
                                word_stack@,
                                4,
                                cursor_value(list, index as int),
                            );
                        }
                    }
                    out.push(found);
                    proof {
                        assert(out@[before.len() as int]@ == found@);
                        assert forall|t: Seq<WordBitmap>| #[trigger]
                            is_solution(c, t) && in_batch(
                                c,
                                start as int,
                                end as int,
                                t[0],
                            ) implies (listed(out@, t) <==> (listed(before, t) || (follows(
                            t,
                            word_stack@,
                            depth as int,
                        ) && t[depth as int] == list[index as int]))) by {
                            if listed(out@, t) {
                                let k = choose|k: int| 0 <= k < out@.len() && (#[trigger] out@[k])@
                                    == t;
                                if k < before.len() {
                                    assert(before[k]@ == t);
                                }
                            }
                            if listed(before, t) {
                                let k = choose|k: int|
                                    0 <= k < before.len() && (#[trigger] before[k])@ == t;
                                assert(out@[k]@ == t);
                            }
                            if follows(t, word_stack@, 4) && t[4] == list[index as int] {
                                assert(t =~= found@);
                            }
                        }
                        lemma_advance(
                            c,
                            start as int,
                            end as int,
                            before,
                            out@,
                            word_stack@,
                            depth as int,
                            index as int,
                        );
                        assert(!none_under(out@, word_stack@[1]));
                        assert(sound_out(c, start as int, end as int, out@)) by {
                            assert forall|k: int| 0 <= k < out@.len() implies is_solution(
                                c,
                                (#[trigger] out@[k])@,
                            ) && in_batch(c, start as int, end as int, out@[k]@[0]) by {
                                if k < before.len() {
                                    assert(out@[k] == before[k]);
                                }
                            }
                            assert forall|j: int, k: int|
                                #![trigger out@[j], out@[k]]
                                0 <= j < k < out@.len() implies out@[j]@ != out@[k]@
                                && comes_before(out@[j]@, out@[k]@) by {
                                assert(out@[j] == before[j]);
                                if k < before.len() {
                                    assert(out@[k] == before[k]);
                                }
                            }
                        }
                    }
                    index += 1;
                } else {
                    descend = true;
                    scanning = false;
                }
            } else {
                scanning = false;
            }
        }
        if descend {
            let word = curwordlist[index];
            let list_len: usize = curwordlist.len();
            proof {
                lemma_possible(c, cur_used_letters.0);
                lemma_frame_set(
                    c,
                    start as int,
                    end as int,
                    out@,
                    word_stack@,
                    next_to_explore_for_level@,
                    depth as int,
                    cur_used_letters.0,
                    cursor_value(list, index as int),
                    word,
                );
                assert(list.contains(list[index as int]));
                let a = cur_used_letters.0;
                let b = word.0;
                assert(b & a == 0 ==> a & b == 0) by (bit_vector);
                lemma_chain_push(c, chosen(word_stack@, depth as int), word);
                if depth == 0 {
                    assert(chosen(word_stack@, 0) =~= Seq::<WordBitmap>::empty());
                    lemma_possible_all(c);
                    assert forall|k: int| 0 <= k < out@.len() implies (#[trigger] out@[k])@[0]
                        != word by {
                        assert(listed(out@, out@[k]@));
                        assert(is_solution(c, out@[k]@));
                    }
                }
            }
            let ghost stack_before = word_stack@;
            let ghost next_before = next_to_explore_for_level@;
            word_stack.set(depth + 1, word);
            cur_used_letters.bitor_assign(word);
            next_to_explore_for_level.set(depth, index + 1);
            depth += 1;
            next_to_explore_for_level.set(depth, 0);
            proof {
                let d0 = depth - 1;
                assert(chosen(word_stack@, depth as int) =~= chosen(stack_before, d0).push(word));
                assert(chosen(word_stack@, d0) =~= chosen(stack_before, d0));
                lemma_descend(c, start as int, end as int, out@, word_stack@, d0, index as int);
                assert forall|d: int| 0 <= d < depth implies #[trigger] placed(
                    c,
                    word_stack@,
                    next_to_explore_for_level@,
                    d,
                ) by {
                    if d < d0 {
                        assert(placed(c, stack_before.update(d0 + 1, word), next_before, d));
                    }
                }
                assert(cursor_value(
                    possible(c, cur_used_letters.0),
                    next_to_explore_for_level@[depth as int] as int,
                ) == cursor_value(possible(c, letters_of(chosen(word_stack@, depth as int))), 0));
            }
        } else {
            proof {
                lemma_exhausted(
                    c,
                    start as int,
                    end as int,
                    out@,
                    word_stack@,
                    depth as int,
                    index as int,
                );
            }
            if no_solutions_for_current_first_word {
                let ghost items_before = index_set_items(dead_ends_candidates);
                candidates_insert(&mut dead_ends_candidates, cur_used_letters.0);
                proof {
                    let items = index_set_items(dead_ends_candidates);
                    if items == items_before.push(cur_used_letters.0) {
                        assert(items[items.len() - 1] == cur_used_letters.0);
                    }
                    assert(items.contains(cur_used_letters.0));
                    if depth >= 1 {
                        assert forall|x: u32| #[trigger]
                            index_set_items(dead_ends_candidates).contains(x) implies rooted(
                            c,
                            x,
                            word_stack@[1],
                        ) by {
                            if !items_before.contains(x) {
                                let items = index_set_items(dead_ends_candidates);
                                let k = choose|k: int| 0 <= k < items.len() && items[k] == x;
                                if k < items_before.len() {
                                    assert(items_before[k] == x);
                                }
                                assert(x == cur_used_letters.0);
                                let q = chosen(word_stack@, depth as int);
                                assert(q[0] == word_stack@[1]);
                                assert(letters_of(q) == x);
                            }
                        }
                    }
                }
            }
            if depth == 0 {
                running = false;
                proof {
                    assert(chosen(word_stack@, 0) =~= Seq::<WordBitmap>::empty());
                    lemma_possible_all(c);
                    assert forall|t: Seq<WordBitmap>| #[trigger]
                        is_solution(c, t) && in_batch(
                            c,
                            start as int,
                            end as int,
                            t[0],
                        ) implies listed(out@, t) by {
                        assert(explored(t, word_stack@, 0, past_all()));
                    }
                }
            } else {
                let ghost deep = depth as int;
                let ghost state_here = cur_used_letters.0;
                proof {
                    if deep == 1 {
                        let one = chosen(word_stack@, 1);
                        assert(one.drop_last() =~= Seq::<WordBitmap>::empty());
                        assert(letters_of(one.drop_last()) == 0);
                        let x = word_stack@[1].0;
                        assert(one.last().0 == x);
                        assert(0u32 | x == x) by (bit_vector);
                        assert(state_here == x);
                    }
                    lemma_backtrack(
                        c,
                        start as int,
                        end as int,
                        out@,
                        word_stack@,
                        next_to_explore_for_level@,
                        deep,
                    );
                    let p = chosen(word_stack@, deep);
                    lemma_chain_take(c, p, deep - 1);
                    assert(p.take(deep - 1) =~= chosen(word_stack@, deep - 1));
                    assert(p.drop_last() =~= chosen(word_stack@, deep - 1));
                    assert forall|i: int| 0 <= i < deep - 1 implies (#[trigger] chosen(
                        word_stack@,
                        deep - 1,
                    )[i]).0 & p.last().0 == 0 by {
                        assert(p[i].0 & p[deep - 1].0 == 0);
                    }
                    lemma_letters_disjoint(chosen(word_stack@, deep - 1), p.last().0);
                    let a = letters_of(chosen(word_stack@, deep - 1));
                    let b = p.last().0;
                    assert(a & b == 0 ==> (a | b) & !b == a) by (bit_vector);
                }
                depth -= 1;
                let cur_top_word = word_stack[depth + 1];
                cur_used_letters.remove(cur_top_word);
                if depth == 0 {
                    if no_solutions_for_current_first_word {
                        let drained = candidates_drain(&mut dead_ends_candidates);
                        proof {
                            let first = word_stack@[1];
                            assert(placed(c, word_stack@, next_to_explore_for_level@, 0));
                            assert(chosen(word_stack@, 0) =~= Seq::<WordBitmap>::empty());
                            lemma_possible_all(c);
                            assert(in_batch(c, start as int, end as int, first));
                            assert forall|t: Seq<WordBitmap>| is_solution(c, t) implies #[trigger] t[0]
                                != first by {
                                if t[0] == first {
                                    assert(follows(t, word_stack@, 1));
                                    assert(explored(t, word_stack@, 1, past_all()));
                                    assert(listed(out@, t));
                                }
                            }
                            assert(begins_none(c, first));
                            assert forall|j: int| 0 <= j < drained@.len() implies dead(
                                c,
                                #[trigger] drained@[j],
                            ) && drained@[j] <= LETTER_MASK && explained(
                                c,
                                start as int,
                                end as int,
                                drained@[j],
                            ) by {
                                let x = drained@[j];
                                assert(drained@.contains(x));
                                assert(rooted(c, x, c[next_to_explore_for_level@[0] - 1]));
                                lemma_rooted_dead(c, first, x);
                                let q = choose|q: Seq<WordBitmap>|
                                    is_chain(c, q) && q.len() >= 1 && q[0] == first
                                        && #[trigger] letters_of(q) == x;
                                lemma_chain_count(c, q);
                            }
                        }
                        commit_dead_ends(
                            dead_ends,
                            &drained,
                            Ghost(c),
                            Ghost(start as int),
                            Ghost(end as int),
                            Ghost(marked_before),
                        );
                        proof {
                            assert(drained@.contains(state_here));
                            assert(dead_ends@.contains(state_here));
                        }
                    } else {
                        proof {
                            let first = word_stack@[1];
                            assert(!none_under(out@, first));
                            let k = choose|k: int|
                                0 <= k < out@.len() && (#[trigger] out@[k])@[0] == first;
                            assert(is_solution(c, out@[k]@));
                            assert(!begins_none(c, first));
                        }
                    }
                    proof {
                        assert(placed(c, word_stack@, next_to_explore_for_level@, 0));
                        assert(chosen(word_stack@, 0) =~= Seq::<WordBitmap>::empty());
                        lemma_possible_all(c);
                        lemma_first_word_done(
                            c,
                            start as int,
                            next_to_explore_for_level@[0] as int,
                            marked_at_head,
                            dead_ends@,
                        );
                    }
                    candidates_clear(&mut dead_ends_candidates);
                    no_solutions_for_current_first_word = true;
                }
            }
        }
    }
    out
}

} // verus!
