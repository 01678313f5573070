use five_words::dead_ends::DeadEnds;
use five_words::letters::WordBitmap;
use five_words::possible::{get_possible_words, possible_words};
use five_words::words::get_valid_word;
use std::collections::HashMap;

fn words(texts: &[&str]) -> Vec<WordBitmap> {
    let mut list: Vec<WordBitmap> = texts.iter().map(|t| get_valid_word(t).unwrap()).collect();
    list.sort();
    list
}

#[test]
fn a_new_store_marks_nothing() {
    let store = DeadEnds::new();
    for state in [0u32, 1, 63, 64, 65, 0b11111, 0x03ff_ffff, 0x0200_0000] {
        assert!(!store.is_dead_end(WordBitmap(state)));
    }
}

#[test]
fn a_marked_state_is_found_and_no_other() {
    let mut store = DeadEnds::new();
    store.mark_dead_end(WordBitmap(0b11111));
    assert!(store.is_dead_end(WordBitmap(0b11111)));
    assert!(!store.is_dead_end(WordBitmap(0b11110)));
    assert!(!store.is_dead_end(WordBitmap(0b111111)));
    assert!(!store.is_dead_end(WordBitmap(0b11111 + 64)));
    assert!(!store.is_dead_end(WordBitmap(0)));
}

#[test]
fn marking_twice_is_marking_once() {
    let mut store = DeadEnds::new();
    store.mark_dead_end(WordBitmap(77));
    store.mark_dead_end(WordBitmap(77));
    store.mark_dead_end(WordBitmap(78));
    assert!(store.is_dead_end(WordBitmap(77)));
    assert!(store.is_dead_end(WordBitmap(78)));
    assert!(!store.is_dead_end(WordBitmap(79)));
    assert!(!store.is_dead_end(WordBitmap(76)));
}

#[test]
fn the_store_reaches_the_first_and_the_last_state() {
    let mut store = DeadEnds::new();
    store.mark_dead_end(WordBitmap(0));
    store.mark_dead_end(WordBitmap(0x03ff_ffff));
    assert!(store.is_dead_end(WordBitmap(0)));
    assert!(store.is_dead_end(WordBitmap(0x03ff_ffff)));
    assert!(!store.is_dead_end(WordBitmap(0x03ff_fffe)));
    assert!(!store.is_dead_end(WordBitmap(1)));
}

#[test]
fn possible_words_keeps_the_disjoint_words_in_order() {
    let list = words(&["abcde", "fghij", "klmno", "efghi", "vwxyz", "uvwxy"]);
    let used = get_valid_word("abcde").unwrap();
    let left = possible_words(used, &list);
    assert_eq!(left, words(&["fghij", "klmno", "uvwxy", "vwxyz"]));
    let all = possible_words(WordBitmap(0), &list);
    assert_eq!(all, list);
    let none = possible_words(WordBitmap(0x03ff_ffff), &list);
    assert!(none.is_empty());
}

#[test]
fn the_memo_answers_as_the_scan_does() {
    let list = words(&["abcde", "fghij", "klmno", "efghi", "vwxyz", "uvwxy"]);
    let mut cache: HashMap<u32, Vec<WordBitmap>> = HashMap::new();
    let used = get_valid_word("fghij").unwrap();
    let first = get_possible_words(&mut cache, used, &list).clone();
    assert_eq!(first, possible_words(used, &list));
    assert_eq!(cache.len(), 1);
    let second = get_possible_words(&mut cache, used, &list).clone();
    assert_eq!(second, first);
    assert_eq!(cache.len(), 1);
    let other = get_possible_words(&mut cache, WordBitmap(0), &list).clone();
    assert_eq!(other, list);
    assert_eq!(cache.len(), 2);
}
