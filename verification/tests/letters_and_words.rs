use five_words::letters::WordBitmap;
use five_words::words::get_valid_word;

#[test]
fn a_word_becomes_the_bits_of_its_letters() {
    assert_eq!(get_valid_word("abcde"), Some(WordBitmap(0b11111)));
    assert_eq!(get_valid_word("edcba"), Some(WordBitmap(0b11111)));
    assert_eq!(get_valid_word("vwxyz"), Some(WordBitmap(0b11111 << 21)));
    assert_eq!(get_valid_word("azbyc"), Some(WordBitmap(0b111 | (0b11 << 24))));
}

#[test]
fn a_repeated_letter_is_refused() {
    assert_eq!(get_valid_word("aabcd"), None);
    assert_eq!(get_valid_word("abcda"), None);
    assert_eq!(get_valid_word("zzzzz"), None);
}

#[test]
fn a_wrong_length_is_refused() {
    assert_eq!(get_valid_word(""), None);
    assert_eq!(get_valid_word("abcd"), None);
    assert_eq!(get_valid_word("abcdef"), None);
    assert_eq!(get_valid_word("abcdefghijklmnopqrstuvwxyz"), None);
}

#[test]
fn other_characters_are_refused() {
    assert_eq!(get_valid_word("ABCDE"), None);
    assert_eq!(get_valid_word("abcd "), None);
    assert_eq!(get_valid_word("abcd\r"), None);
    assert_eq!(get_valid_word("ab-de"), None);
    assert_eq!(get_valid_word("abcd{"), None);
    assert_eq!(get_valid_word("abcd`"), None);
}

#[test]
fn every_valid_word_has_five_letters() {
    for text in ["abcde", "fjord", "waltz", "nymph", "quick", "vwxyz"] {
        let word = get_valid_word(text).unwrap();
        assert_eq!(word.letter_count(), 5);
        assert_eq!(word.0.count_ones(), 5);
        assert!(word.0 < (1 << 26));
    }
}

#[test]
fn overlaps_sees_a_shared_letter() {
    let abcde = get_valid_word("abcde").unwrap();
    let efghi = get_valid_word("efghi").unwrap();
    let fghij = get_valid_word("fghij").unwrap();
    assert!(abcde.overlaps(efghi));
    assert!(efghi.overlaps(abcde));
    assert!(!abcde.overlaps(fghij));
    assert!(!abcde.overlaps(WordBitmap(0)));
    assert!(abcde.overlaps(abcde));
}

#[test]
fn union_and_remove_undo_each_other_on_disjoint_sets() {
    let abcde = get_valid_word("abcde").unwrap();
    let fghij = get_valid_word("fghij").unwrap();
    let both = abcde.union(fghij);
    assert_eq!(both, WordBitmap(0b11111_11111));
    let mut used = both;
    used.remove(fghij);
    assert_eq!(used, abcde);
    used.remove(fghij);
    assert_eq!(used, abcde);
    used.bitor_assign(fghij);
    assert_eq!(used, both);
    used.bitor_assign(fghij);
    assert_eq!(used, both);
}

#[test]
fn remove_takes_only_the_letters_of_the_other() {
    let mut set = WordBitmap(0b1111);
    set.remove(WordBitmap(0b0110));
    assert_eq!(set, WordBitmap(0b1001));
}

#[test]
fn letter_count_counts_bits() {
    assert_eq!(WordBitmap(0).letter_count(), 0);
    assert_eq!(WordBitmap(1).letter_count(), 1);
    assert_eq!(WordBitmap(0x03ff_ffff).letter_count(), 26);
    assert_eq!(WordBitmap(0xffff_ffff).letter_count(), 32);
    assert_eq!(WordBitmap(0b1010_0101).letter_count(), 4);
}

#[test]
fn full_means_25_letters() {
    assert!(WordBitmap(0x01ff_ffff).is_full());
    assert!(WordBitmap(0x03ff_ffff & !(1 << 7)).is_full());
    assert!(!WordBitmap(0x03ff_ffff).is_full());
    assert!(!WordBitmap(0x00ff_ffff).is_full());
    assert!(!WordBitmap(0).is_full());
}

#[test]
fn letter_sets_order_by_their_number() {
    let abcde = get_valid_word("abcde").unwrap();
    let vwxyz = get_valid_word("vwxyz").unwrap();
    assert!(abcde < vwxyz);
    assert!(abcde.0 < vwxyz.0);
}

#[test]
fn letters_come_out_in_order() {
    assert_eq!(get_valid_word("edcba").unwrap().letters(), b"abcde".to_vec());
    assert_eq!(get_valid_word("waltz").unwrap().letters(), b"altwz".to_vec());
    assert_eq!(WordBitmap(0).letters(), Vec::<u8>::new());
    assert_eq!(
        WordBitmap(0x03ff_ffff).letters(),
        b"abcdefghijklmnopqrstuvwxyz".to_vec()
    );
    assert_eq!(WordBitmap(0x8000_0001).letters(), vec![b'a', b'a' + 31]);
}
