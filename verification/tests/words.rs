use cryptoquote::curated::{THREE_LETTER_WORDS, TWO_LETTER_WORDS};
use cryptoquote::words::{hash_word, same_bytes, word_set_of};
use cryptoquote::{words_by_length, WordIndex, WordSet};

#[test]
fn hash_is_fnv_1a() {
    assert_eq!(hash_word(b""), 0xcbf2_9ce4_8422_2325);
    assert_eq!(hash_word(b"a"), 0xaf63_dc4c_8601_ec8c);
    assert_eq!(hash_word(b"foobar"), 0x8594_4171_f739_67e8);
}

#[test]
fn same_bytes_compares_contents() {
    assert!(same_bytes(b"", b""));
    assert!(same_bytes(b"abc", b"abc"));
    assert!(!same_bytes(b"abc", b"abd"));
    assert!(!same_bytes(b"abc", b"ab"));
    assert!(!same_bytes(b"", b"a"));
}

#[test]
fn word_set_holds_what_was_inserted() {
    let mut set = WordSet::new();
    assert!(!set.contains(b"the"));
    set.insert(b"the");
    set.insert(b"cat");
    set.insert(b"the");
    assert!(set.contains(b"the"));
    assert!(set.contains(b"cat"));
    assert!(!set.contains(b"dog"));
    assert!(!set.contains(b"th"));
    assert!(!set.contains(b""));
}

#[test]
fn word_set_of_a_list_holds_the_list() {
    let set = word_set_of(&[[b'u', b'p'], [b'n', b'o']]);
    assert!(set.contains(b"up"));
    assert!(set.contains(b"no"));
    assert!(!set.contains(b"on"));
}

#[test]
fn curated_lists_are_complete() {
    let two: [&[u8]; 24] = [
        b"am", b"an", b"as", b"at", b"be", b"by", b"do", b"go", b"he", b"if", b"in", b"is", b"it",
        b"me", b"my", b"no", b"of", b"on", b"or", b"so", b"to", b"up", b"us", b"we",
    ];
    let three: [&[u8]; 39] = [
        b"all", b"and", b"any", b"are", b"boy", b"but", b"can", b"day", b"did", b"for", b"get",
        b"had", b"has", b"her", b"him", b"his", b"how", b"its", b"let", b"man", b"new", b"not",
        b"now", b"old", b"one", b"our", b"out", b"put", b"say", b"see", b"she", b"the", b"too",
        b"two", b"use", b"was", b"way", b"who", b"you",
    ];
    for i in 0..24 {
        assert_eq!(&TWO_LETTER_WORDS[i][..], two[i]);
    }
    for i in 0..39 {
        assert_eq!(&THREE_LETTER_WORDS[i][..], three[i]);
    }
}

#[test]
fn new_index_is_empty() {
    let index = WordIndex::new(4);
    assert_eq!(index.len(), 5);
    assert!(!index.contains(b""));
    assert!(!index.contains(b"a"));
    assert!(!index.contains(b"the"));
    assert!(!index.contains(b"longer"));
}

#[test]
fn index_files_words_by_length() {
    let mut index = WordIndex::new(3);
    assert!(index.insert(b"a"));
    assert!(index.insert(b"cat"));
    assert!(!index.insert(b"cats"));
    assert!(index.contains(b"a"));
    assert!(index.contains(b"cat"));
    assert!(!index.contains(b"cats"));
    assert!(!index.contains(b"ca"));
}

#[test]
fn replace_bucket_overwrites_one_length() {
    let mut index = WordIndex::new(3);
    index.insert(b"zz");
    index.insert(b"zzz");
    let mut words = WordSet::new();
    words.insert(b"up");
    words.insert(b"cat");
    index.replace_bucket(2, words);
    assert!(index.contains(b"up"));
    assert!(!index.contains(b"zz"));
    assert!(!index.contains(b"cat"));
    assert!(index.contains(b"zzz"));
    let mut more = WordSet::new();
    more.insert(b"four");
    index.replace_bucket(4, more);
    assert_eq!(index.len(), 4);
    assert!(!index.contains(b"four"));
}

#[test]
fn dictionary_lines_are_filed_by_length() {
    let index = words_by_length(b"a\nhello\r\nzz\nabc\n\nworld\nlonger\nlast", 5);
    assert_eq!(index.len(), 6);
    assert!(index.contains(b"a"));
    assert!(index.contains(b"hello"));
    assert!(index.contains(b"world"));
    assert!(index.contains(b"last"));
    assert!(!index.contains(b"longer"));
    assert!(!index.contains(b""));
    assert!(!index.contains(b"hell"));
}

#[test]
fn dictionary_short_words_are_the_curated_ones() {
    let index = words_by_length(b"zz\nabc\nto\nthe\nfour", 4);
    assert!(!index.contains(b"zz"));
    assert!(!index.contains(b"abc"));
    assert!(index.contains(b"four"));
    for w in TWO_LETTER_WORDS.iter() {
        assert!(index.contains(w));
    }
    for w in THREE_LETTER_WORDS.iter() {
        assert!(index.contains(w));
    }
}

#[test]
fn dictionary_without_short_buckets() {
    let one = words_by_length(b"a\nto\nthe", 1);
    assert_eq!(one.len(), 2);
    assert!(one.contains(b"a"));
    assert!(!one.contains(b"to"));
    assert!(!one.contains(b"the"));
    let two = words_by_length(b"a\nzz\nthe", 2);
    assert_eq!(two.len(), 3);
    assert!(two.contains(b"to"));
    assert!(!two.contains(b"zz"));
    assert!(!two.contains(b"the"));
    let none = words_by_length(b"a", 0);
    assert_eq!(none.len(), 1);
    assert!(!none.contains(b"a"));
    assert!(!none.contains(b""));
}

#[test]
fn dictionary_of_nothing_has_the_curated_words_only() {
    let index = words_by_length(b"", 3);
    assert!(index.contains(b"we"));
    assert!(index.contains(b"you"));
    assert!(!index.contains(b"a"));
    assert!(!index.contains(b""));
}
