use five_words::corpus::build_corpus;
use five_words::dead_ends::DeadEnds;
use five_words::letters::WordBitmap;
use five_words::search::calculate_solution_in_thread;
use five_words::solver::{batch_count, batch_range, find_solutions, solve};
use five_words::words::get_valid_word;

fn bits(text: &str) -> WordBitmap {
    get_valid_word(text).unwrap()
}

fn scenario() -> Vec<&'static str> {
    vec!["abcde", "fghij", "klmno", "pqrst", "uvwxy", "vwxyz"]
}

/// The 252 five-letter subsets of the letters `a` to `j`, the words `klmno`
/// and `pqrst`, and the 6 five-letter subsets of the letters `u` to `z`: 260
/// letter sets with 6 * 126 solutions, whose first words are the last six.
fn many_words() -> Vec<String> {
    let mut lines = Vec::new();
    for mask in 0u32..(1 << 10) {
        if mask.count_ones() == 5 {
            let mut text = String::new();
            for letter in 0u8..10 {
                if mask & (1 << letter) != 0 {
                    text.push((b'a' + letter) as char);
                }
            }
            lines.push(text);
        }
    }
    lines.push("klmno".to_string());
    lines.push("pqrst".to_string());
    for left_out in 0u8..6 {
        let mut text = String::new();
        for letter in 0u8..6 {
            if letter != left_out {
                text.push((b'u' + letter) as char);
            }
        }
        lines.push(text);
    }
    lines
}

fn sorted(mut found: Vec<Vec<WordBitmap>>) -> Vec<Vec<WordBitmap>> {
    found.sort();
    found
}

/// Five words that fit together and a sixth that clashes with two of them.
fn one_misfit() -> Vec<&'static str> {
    vec!["abcde", "fghij", "klmno", "pqrst", "uvwxy", "ewxyz"]
}

#[test]
fn six_words_of_which_two_clash_have_two_solutions() {
    let solved = solve(&scenario());
    assert_eq!(
        solved.combinations,
        vec![
            vec![bits("uvwxy"), bits("pqrst"), bits("klmno"), bits("fghij"), bits("abcde")],
            vec![bits("vwxyz"), bits("pqrst"), bits("klmno"), bits("fghij"), bits("abcde")],
        ]
    );
    assert_eq!(solved.records, vec![vec![4, 3, 2, 1, 0], vec![5, 3, 2, 1, 0]]);
    for combination in &solved.combinations {
        assert!(!(combination.contains(&bits("uvwxy")) && combination.contains(&bits("vwxyz"))));
    }
}

#[test]
fn a_word_that_clashes_with_two_others_is_in_no_solution() {
    let solved = solve(&one_misfit());
    assert_eq!(
        solved.combinations,
        vec![vec![bits("uvwxy"), bits("pqrst"), bits("klmno"), bits("fghij"), bits("abcde")]]
    );
    assert_eq!(solved.records, vec![vec![4, 3, 2, 1, 0]]);
}

#[test]
fn a_solution_holds_25_letters_in_falling_order() {
    let lines = many_words();
    let refs: Vec<&str> = lines.iter().map(|s| s.as_str()).collect();
    let solved = solve(&refs);
    assert!(!solved.combinations.is_empty());
    for combination in &solved.combinations {
        assert_eq!(combination.len(), 5);
        let mut used = WordBitmap(0);
        for word in combination {
            assert!(!used.overlaps(*word));
            assert!(solved.corpus.word_list.contains(word));
            used.bitor_assign(*word);
        }
        assert_eq!(used.letter_count(), 25);
        assert!(used.is_full());
        for pair in combination.windows(2) {
            assert!(pair[1] < pair[0]);
        }
    }
}

#[test]
fn every_split_of_ten_letters_is_found_once() {
    let lines = many_words();
    let refs: Vec<&str> = lines.iter().map(|s| s.as_str()).collect();
    let solved = solve(&refs);
    assert_eq!(solved.corpus.word_list.len(), 260);
    assert_eq!(solved.combinations.len(), 756);
    assert_eq!(solved.records.len(), 756);
    let mut seen = sorted(solved.combinations.clone());
    seen.dedup();
    assert_eq!(seen.len(), 756);
    let mut sets: Vec<Vec<WordBitmap>> = solved
        .combinations
        .iter()
        .map(|c| {
            let mut words = c.clone();
            words.sort();
            words
        })
        .collect();
    sets.sort();
    sets.dedup();
    assert_eq!(sets.len(), 756);
}

#[test]
fn fewer_than_five_disjoint_words_have_no_solution() {
    let solved = solve(&vec!["abcde", "fghij", "klmno", "pqrst"]);
    assert_eq!(solved.corpus.word_list.len(), 4);
    assert!(solved.combinations.is_empty());
    assert!(solved.records.is_empty());
    let solved = solve(&vec!["abcde", "bcdef", "cdefg", "defgh", "efghi", "fghij", "ghijk"]);
    assert!(solved.combinations.is_empty());
    assert!(solved.records.is_empty());
}

#[test]
fn only_invalid_words_have_no_solution() {
    let solved = solve(&vec!["hello", "sassy", "abc", "toolong", "", "aabcd"]);
    assert!(solved.corpus.word_list.is_empty());
    assert!(solved.combinations.is_empty());
    assert!(solved.records.is_empty());
    let nothing: Vec<&str> = Vec::new();
    let solved = solve(&nothing);
    assert!(solved.combinations.is_empty());
}

#[test]
fn anagrams_multiply_the_records_not_the_combinations() {
    let lines = vec!["abcde", "fghij", "edcba", "klmno", "jihgf", "pqrst", "uvwxy", "ewxyz"];
    let solved = solve(&lines);
    assert_eq!(solved.combinations.len(), 1);
    assert_eq!(
        solved.records,
        vec![vec![6, 5, 3, 1, 0], vec![6, 5, 3, 4, 0], vec![6, 5, 3, 1, 2], vec![6, 5, 3, 4, 2]]
    );
}

#[test]
fn two_runs_find_the_same() {
    let lines = many_words();
    let refs: Vec<&str> = lines.iter().map(|s| s.as_str()).collect();
    let first = solve(&refs);
    let second = solve(&refs);
    assert_eq!(sorted(first.combinations), sorted(second.combinations));
    assert_eq!(first.records, second.records);
}

#[test]
fn batches_apart_find_what_one_run_finds() {
    let lines = many_words();
    let refs: Vec<&str> = lines.iter().map(|s| s.as_str()).collect();
    let corpus = build_corpus(&refs);
    let whole = find_solutions(&corpus.word_list);
    let count = batch_count(corpus.word_list.len());
    assert_eq!(count, 9);
    let mut apart = Vec::new();
    for i in (0..count).rev() {
        let mut own_store = DeadEnds::new();
        let range = batch_range(i, corpus.word_list.len());
        apart.extend(calculate_solution_in_thread(range, &corpus.word_list, &mut own_store));
    }
    assert_eq!(apart.len(), 756);
    assert_eq!(sorted(apart), sorted(whole));
}

#[test]
fn one_wide_batch_finds_what_the_batches_find() {
    let lines = many_words();
    let refs: Vec<&str> = lines.iter().map(|s| s.as_str()).collect();
    let corpus = build_corpus(&refs);
    let mut store = DeadEnds::new();
    let wide = calculate_solution_in_thread(0..1000, &corpus.word_list, &mut store);
    assert_eq!(sorted(wide), sorted(find_solutions(&corpus.word_list)));
}

#[test]
fn a_batch_finds_only_its_own_first_words() {
    let corpus = build_corpus(&scenario());
    let mut store = DeadEnds::new();
    assert!(calculate_solution_in_thread(0..4, &corpus.word_list, &mut store).is_empty());
    assert_eq!(
        calculate_solution_in_thread(4..5, &corpus.word_list, &mut store),
        vec![vec![bits("uvwxy"), bits("pqrst"), bits("klmno"), bits("fghij"), bits("abcde")]]
    );
    assert_eq!(
        calculate_solution_in_thread(5..6, &corpus.word_list, &mut store),
        vec![vec![bits("vwxyz"), bits("pqrst"), bits("klmno"), bits("fghij"), bits("abcde")]]
    );
    assert!(calculate_solution_in_thread(6..9, &corpus.word_list, &mut store).is_empty());
    assert!(calculate_solution_in_thread(3..3, &corpus.word_list, &mut store).is_empty());
}

#[test]
fn first_words_without_a_solution_leave_dead_ends() {
    let corpus = build_corpus(&one_misfit());
    let mut store = DeadEnds::new();
    let found = calculate_solution_in_thread(0..6, &corpus.word_list, &mut store);
    assert_eq!(found.len(), 1);
    assert!(store.is_dead_end(bits("abcde")));
    assert!(store.is_dead_end(bits("fghij")));
    assert!(store.is_dead_end(bits("fghij").union(bits("abcde"))));
    assert!(store.is_dead_end(bits("ewxyz")));
    assert!(store.is_dead_end(bits("ewxyz").union(bits("pqrst"))));
    assert!(store.is_dead_end(bits("ewxyz").union(bits("fghij"))));
    assert!(store.is_dead_end(
        bits("ewxyz").union(bits("pqrst")).union(bits("klmno")).union(bits("fghij"))
    ));
    assert!(!store.is_dead_end(bits("ewxyz").union(bits("abcde"))));
    assert!(!store.is_dead_end(bits("uvwxy").union(bits("abcde"))));
    assert!(!store.is_dead_end(bits("uvwxy").union(bits("fghij"))));
    assert!(!store.is_dead_end(bits("uvwxy")));
    assert!(!store.is_dead_end(bits("uvwxy").union(bits("pqrst"))));
    assert!(!store.is_dead_end(WordBitmap(0)));
}

#[test]
fn a_marked_state_begins_no_solution() {
    let lines = many_words();
    let refs: Vec<&str> = lines.iter().map(|s| s.as_str()).collect();
    let corpus = build_corpus(&refs);
    let mut store = DeadEnds::new();
    let found = calculate_solution_in_thread(0..260, &corpus.word_list, &mut store);
    assert_eq!(found.len(), 756);
    for combination in &found {
        let mut used = WordBitmap(0);
        for word in combination {
            used.bitor_assign(*word);
            assert!(!store.is_dead_end(used));
        }
    }
    let mut again = DeadEnds::new();
    let fresh = calculate_solution_in_thread(0..260, &corpus.word_list, &mut again);
    assert_eq!(sorted(fresh), sorted(found));
}

#[test]
fn a_store_that_knows_dead_ends_changes_no_result() {
    let lines = many_words();
    let refs: Vec<&str> = lines.iter().map(|s| s.as_str()).collect();
    let corpus = build_corpus(&refs);
    let mut store = DeadEnds::new();
    let first = calculate_solution_in_thread(0..260, &corpus.word_list, &mut store);
    let second = calculate_solution_in_thread(0..260, &corpus.word_list, &mut store);
    assert_eq!(sorted(first), sorted(second));
}

#[test]
fn solutions_come_in_the_order_of_their_words() {
    let lines = many_words();
    let refs: Vec<&str> = lines.iter().map(|s| s.as_str()).collect();
    let corpus = build_corpus(&refs);
    let found = find_solutions(&corpus.word_list);
    assert_eq!(found.clone(), sorted(found));
    let mut store = DeadEnds::new();
    let batch = calculate_solution_in_thread(254..257, &corpus.word_list, &mut store);
    assert_eq!(batch.len(), 3 * 126);
    for combination in &batch {
        assert!(corpus.word_list[254..257].contains(&combination[0]));
    }
    assert_eq!(batch.clone(), sorted(batch));
}

#[test]
fn a_first_word_without_a_solution_is_marked() {
    let lines = many_words();
    let refs: Vec<&str> = lines.iter().map(|s| s.as_str()).collect();
    let corpus = build_corpus(&refs);
    let mut store = DeadEnds::new();
    let found = calculate_solution_in_thread(0..260, &corpus.word_list, &mut store);
    for (place, word) in corpus.word_list.iter().enumerate() {
        let begins_one = found.iter().any(|combination| combination[0] == *word);
        assert_eq!(store.is_dead_end(*word), !begins_one, "word at {}", place);
    }
}

#[test]
fn batches_are_32_wide() {
    assert_eq!(batch_count(0), 0);
    assert_eq!(batch_count(1), 1);
    assert_eq!(batch_count(32), 1);
    assert_eq!(batch_count(33), 2);
    assert_eq!(batch_count(255), 8);
    assert_eq!(batch_range(0, 255), 0..32);
    assert_eq!(batch_range(1, 255), 32..64);
    assert_eq!(batch_range(7, 255), 224..255);
    assert_eq!(batch_range(0, 5), 0..5);
    assert_eq!(batch_range(1, 64), 32..64);
}
