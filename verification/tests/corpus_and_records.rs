use five_words::corpus::{build_corpus, index_keys, lower_bound, Corpus};
use five_words::expand::{expand_solution, with_pushed};
use five_words::letters::WordBitmap;
use five_words::words::get_valid_word;

fn bits(text: &str) -> WordBitmap {
    get_valid_word(text).unwrap()
}

#[test]
fn anagrams_share_one_entry() {
    let lines = vec!["fghij", "abcde", "edcba", "jihgf", "bcdea"];
    let corpus = build_corpus(&lines);
    assert_eq!(corpus.word_list, vec![bits("abcde"), bits("fghij")]);
    assert_eq!(corpus.anagrams, vec![vec![1, 2, 4], vec![0, 3]]);
}

#[test]
fn the_word_list_is_ascending() {
    let lines = vec!["vwxyz", "klmno", "abcde", "uvwxy", "fghij", "pqrst"];
    let corpus = build_corpus(&lines);
    let mut sorted = corpus.word_list.clone();
    sorted.sort();
    sorted.dedup();
    assert_eq!(corpus.word_list, sorted);
    assert_eq!(corpus.word_list.len(), 6);
    assert_eq!(corpus.anagrams, vec![vec![2], vec![4], vec![1], vec![5], vec![3], vec![0]]);
}

#[test]
fn invalid_lines_are_left_out() {
    let lines = vec!["", "abcde", "hello", "abc", "toolong", "fghij", "Abcde", "aaaaa"];
    let corpus = build_corpus(&lines);
    assert_eq!(corpus.word_list, vec![bits("abcde"), bits("fghij")]);
    assert_eq!(corpus.anagrams, vec![vec![1], vec![5]]);
}

#[test]
fn only_invalid_lines_give_an_empty_corpus() {
    let lines = vec!["hello", "aa", "", "toolong", "sassy", "abcdd"];
    let corpus = build_corpus(&lines);
    assert!(corpus.word_list.is_empty());
    assert!(corpus.anagrams.is_empty());
    let none: Vec<&str> = Vec::new();
    let corpus = build_corpus(&none);
    assert!(corpus.word_list.is_empty());
}

#[test]
fn index_keys_groups_equal_keys() {
    let a = bits("abcde");
    let b = bits("fghij");
    let keys = vec![Some(b), None, Some(a), Some(b), None, Some(a), Some(a)];
    let corpus = index_keys(&keys);
    assert_eq!(corpus.word_list, vec![a, b]);
    assert_eq!(corpus.anagrams, vec![vec![2, 5, 6], vec![0, 3]]);
}

#[test]
fn find_gives_the_place_of_a_word() {
    let lines = vec!["fghij", "abcde", "klmno"];
    let corpus = build_corpus(&lines);
    assert_eq!(corpus.find(bits("abcde")), Some(0));
    assert_eq!(corpus.find(bits("fghij")), Some(1));
    assert_eq!(corpus.find(bits("klmno")), Some(2));
    assert_eq!(corpus.find(bits("pqrst")), None);
    assert_eq!(corpus.find(WordBitmap(0)), None);
}

#[test]
fn lower_bound_is_the_first_place_not_below() {
    let list = vec![WordBitmap(3), WordBitmap(7), WordBitmap(20)];
    assert_eq!(lower_bound(&list, WordBitmap(0)), 0);
    assert_eq!(lower_bound(&list, WordBitmap(3)), 0);
    assert_eq!(lower_bound(&list, WordBitmap(4)), 1);
    assert_eq!(lower_bound(&list, WordBitmap(7)), 1);
    assert_eq!(lower_bound(&list, WordBitmap(20)), 2);
    assert_eq!(lower_bound(&list, WordBitmap(21)), 3);
}

#[test]
fn with_pushed_copies_and_adds() {
    assert_eq!(with_pushed(&vec![4, 5], 9), vec![4, 5, 9]);
    assert_eq!(with_pushed(&Vec::new(), 1), vec![1]);
}

#[test]
fn a_combination_without_anagrams_has_one_record() {
    let lines = vec!["abcde", "fghij", "klmno", "pqrst", "uvwxy"];
    let corpus = build_corpus(&lines);
    let sol = vec![bits("uvwxy"), bits("pqrst"), bits("klmno"), bits("fghij"), bits("abcde")];
    assert_eq!(expand_solution(&corpus, &sol), vec![vec![4, 3, 2, 1, 0]]);
}

#[test]
fn records_are_the_product_of_the_groups() {
    let lines = vec!["abcde", "fghij", "edcba", "klmno", "jihgf", "pqrst", "uvwxy", "bacde"];
    let corpus = build_corpus(&lines);
    let sol = vec![bits("uvwxy"), bits("pqrst"), bits("klmno"), bits("fghij"), bits("abcde")];
    let records = expand_solution(&corpus, &sol);
    assert_eq!(
        records,
        vec![
            vec![6, 5, 3, 1, 0],
            vec![6, 5, 3, 4, 0],
            vec![6, 5, 3, 1, 2],
            vec![6, 5, 3, 4, 2],
            vec![6, 5, 3, 1, 7],
            vec![6, 5, 3, 4, 7],
        ]
    );
}

#[test]
fn the_first_group_changes_fastest() {
    let corpus = Corpus {
        word_list: vec![bits("abcde"), bits("fghij")],
        anagrams: vec![vec![10, 11], vec![20, 21, 22]],
    };
    let records = expand_solution(&corpus, &vec![bits("abcde"), bits("fghij")]);
    assert_eq!(
        records,
        vec![vec![10, 20], vec![11, 20], vec![10, 21], vec![11, 21], vec![10, 22], vec![11, 22]]
    );
    let empty: Vec<WordBitmap> = Vec::new();
    assert_eq!(expand_solution(&corpus, &empty), vec![Vec::<usize>::new()]);
}
