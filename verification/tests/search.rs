use cryptoquote::completion::complete;
use cryptoquote::search::{is_solution, prefix_mapping, search_prefixes, try_prefix};
use cryptoquote::text::split_tokens;
use cryptoquote::{crack, longest_token, words_by_length, Mapping, WordIndex};

fn index_of(max_length: usize, words: &[&[u8]]) -> WordIndex {
    let mut index = WordIndex::new(max_length);
    for w in words {
        assert!(index.insert(w));
    }
    index
}

fn is_full_alphabet(m: &Mapping) -> bool {
    let mut seen = [false; 26];
    for c in b'A'..=b'Z' {
        match m.get(c) {
            Some(l) if (b'a'..=b'z').contains(&l) && !seen[(l - b'a') as usize] => {
                seen[(l - b'a') as usize] = true;
            }
            _ => return false,
        }
    }
    seen.iter().all(|&s| s)
}

#[test]
fn prefix_binds_its_letters_in_order() {
    let m = prefix_mapping(&[3, 0, 25]);
    assert_eq!(m.get(b'D'), Some(b'a'));
    assert_eq!(m.get(b'A'), Some(b'b'));
    assert_eq!(m.get(b'Z'), Some(b'c'));
    assert_eq!(m.get(b'B'), None);
    assert_eq!(m.len(), 3);
    assert_eq!(prefix_mapping(&[]), Mapping::new());
}

#[test]
fn completion_of_nothing_is_a_shift() {
    let plain = complete(&Mapping::new(), 0);
    assert_eq!(plain.apply(b"ABCDEFGHIJKLMNOPQRSTUVWXYZ"), b"abcdefghijklmnopqrstuvwxyz".to_vec());
    let shifted = complete(&Mapping::new(), 23);
    assert_eq!(shifted.apply(b"ABCDEFGHIJKLMNOPQRSTUVWXYZ"), b"defghijklmnopqrstuvwxyzabc".to_vec());
    let last = complete(&Mapping::new(), 25);
    assert_eq!(last.apply(b"ABCDEFGHIJKLMNOPQRSTUVWXYZ"), b"bcdefghijklmnopqrstuvwxyza".to_vec());
}

#[test]
fn completion_skips_bound_letters() {
    let base = prefix_mapping(&[3]);
    let from_a = complete(&base, 0);
    assert_eq!(from_a.apply(b"ABCDEFGHIJKLMNOPQRSTUVWXYZ"), b"bcdaefghijklmnopqrstuvwxyz".to_vec());
    let from_d = complete(&base, 3);
    assert_eq!(from_d.apply(b"ABCDEFGHIJKLMNOPQRSTUVWXYZ"), b"xyzabcdefghijklmnopqrstuvw".to_vec());
    let from_z = complete(&base, 25);
    assert_eq!(from_z.apply(b"ABCDEFGHIJKLMNOPQRSTUVWXYZ"), b"cdeafghijklmnopqrstuvwxyzb".to_vec());
    let two = complete(&prefix_mapping(&[25, 0]), 24);
    assert_eq!(two.apply(b"ABCDEFGHIJKLMNOPQRSTUVWXYZ"), b"bdefghijklmnopqrstuvwxyzca".to_vec());
}

#[test]
fn completion_gives_every_letter_out_once() {
    let prefixes: [&[u8]; 5] = [&[], &[7], &[25, 0], &[4, 9, 2, 11, 0], &[
        25, 24, 23, 22, 21, 20, 19, 18, 17, 16, 15, 14, 13, 12, 11, 10, 9, 8, 7, 6, 5, 4, 3, 2, 1,
    ]];
    for prefix in prefixes {
        let base = prefix_mapping(prefix);
        for offset in 0..26u8 {
            let done = complete(&base, offset);
            assert!(is_full_alphabet(&done));
            assert_eq!(done.len(), 26);
            for (i, &n) in prefix.iter().enumerate() {
                assert_eq!(done.get(b'A' + n), Some(b'a' + i as u8));
            }
        }
    }
}

#[test]
fn completion_of_a_full_mapping_changes_nothing() {
    let all: Vec<u8> = (0..26u8).rev().collect();
    let full = prefix_mapping(&all);
    for offset in 0..26u8 {
        assert_eq!(complete(&full, offset), full);
    }
}

#[test]
fn completion_leaves_shared_letters_alone() {
    let base = Mapping::new().set(b'A', b'z').unwrap().set(b'B', b'z').unwrap();
    let done = complete(&base, 0);
    assert_eq!(done.get(b'A'), Some(b'z'));
    assert_eq!(done.get(b'B'), Some(b'z'));
    assert_eq!(done.get(b'C'), Some(b'c'));
    assert_eq!(done.get(b'Z'), Some(b'z'));
}

#[test]
fn solution_needs_every_token_in_its_bucket() {
    let index = index_of(3, &[b"cat", b"a"]);
    let m = Mapping::new().set(b'X', b'c').unwrap().set(b'Y', b'a').unwrap().set(b'Z', b't').unwrap();
    assert!(is_solution(&m, &split_tokens(b"XYZ"), &index));
    assert!(is_solution(&m, &split_tokens(b"XYZ Y XYZ"), &index));
    assert!(!is_solution(&m, &split_tokens(b"XYZ YZ"), &index));
    assert!(!is_solution(&m, &split_tokens(b"XYZ  Y"), &index));
    assert!(!is_solution(&m, &split_tokens(b"XYZQ"), &index));
    assert!(!is_solution(&m, &split_tokens(b"XYZYXYZ"), &index));
    assert!(!is_solution(&m, &split_tokens(b""), &index));
    assert!(!is_solution(&Mapping::new(), &split_tokens(b"XYZ"), &index));
}

#[test]
fn try_prefix_takes_the_first_offset_that_works() {
    let index = index_of(2, &[b"ab", b"yz"]);
    let tokens = split_tokens(b"AB");
    let m = try_prefix(&[], &tokens, &index).unwrap();
    assert_eq!(m, complete(&Mapping::new(), 0));
    assert_eq!(m.apply(b"AB"), b"ab".to_vec());
    let only_late = index_of(2, &[b"yz"]);
    let late = try_prefix(&[], &tokens, &only_late).unwrap();
    assert_eq!(late, complete(&Mapping::new(), 2));
    assert_eq!(late.apply(b"AB"), b"yz".to_vec());
}

#[test]
fn try_prefix_reports_when_no_offset_works() {
    let index = index_of(3, &[b"bad"]);
    let tokens = split_tokens(b"ADC");
    assert_eq!(try_prefix(&[], &tokens, &index), None);
    assert_eq!(try_prefix(&[0], &tokens, &index), None);
    let found = try_prefix(&[3], &tokens, &index).unwrap();
    assert_eq!(found, complete(&prefix_mapping(&[3]), 0));
    assert_eq!(found.apply(b"ADC"), b"bad".to_vec());
}

#[test]
fn search_of_one_size_finds_what_a_prefix_yields() {
    let index = index_of(3, &[b"bad"]);
    let tokens = split_tokens(b"ADC");
    assert_eq!(search_prefixes(0, &tokens, &index), None);
    let found = search_prefixes(1, &tokens, &index).unwrap();
    assert_eq!(found, complete(&prefix_mapping(&[3]), 0));
    assert_eq!(search_prefixes(27, &tokens, &index), None);
}

#[test]
fn crack_single_letter_token() {
    for c in b'A'..=b'Z' {
        let index = index_of(1, &[b"a"]);
        let cipher = [c];
        let m = crack(&cipher, &index).unwrap();
        assert_eq!(m.get(c), Some(b'a'));
        assert_eq!(m.apply(&cipher), b"a".to_vec());
        assert!(is_full_alphabet(&m));
    }
}

#[test]
fn crack_single_letter_token_with_a_loaded_dictionary() {
    let cipher = b"Q";
    let index = words_by_length(b"a\n", longest_token(cipher));
    let m = crack(cipher, &index).unwrap();
    assert_eq!(m.apply(cipher), b"a".to_vec());
}

#[test]
fn crack_a_shifted_text() {
    let cipher = b"WKH ROG PDQ";
    let index = words_by_length(b"", longest_token(cipher));
    let m = crack(cipher, &index).unwrap();
    assert_eq!(m.apply(cipher), b"the old man".to_vec());
    assert_eq!(m, complete(&Mapping::new(), 3));
    assert!(is_solution(&m, &split_tokens(cipher), &index));
}

#[test]
fn crack_goes_on_to_the_next_prefix_size() {
    let index = index_of(3, &[b"bad"]);
    let m = crack(b"ADC", &index).unwrap();
    assert_eq!(m.apply(b"ADC"), b"bad".to_vec());
    assert_eq!(m, complete(&prefix_mapping(&[3]), 0));
    assert!(is_full_alphabet(&m));
}

#[test]
fn crack_result_decodes_every_token_to_a_word() {
    let index = index_of(4, &[b"that", b"hat", b"at", b"a"]);
    let cipher = b"GUNG UNG NG N";
    let m = crack(cipher, &index).unwrap();
    let tokens = split_tokens(cipher);
    assert!(is_solution(&m, &tokens, &index));
    for t in tokens {
        assert!(index.contains(&m.apply(t)));
    }
    assert_eq!(m.apply(cipher), b"that hat at a".to_vec());
}

#[test]
fn token_without_a_bucket_is_never_solved() {
    let index = index_of(3, &[b"cat", b"the"]);
    let tokens = split_tokens(b"A XYZ");
    for k in 0..3 {
        assert_eq!(search_prefixes(k, &tokens, &index), None);
    }
    assert_eq!(try_prefix(&[23, 24, 25], &tokens, &index), None);
    let long = split_tokens(b"XYZ ABCD");
    for k in 0..3 {
        assert_eq!(search_prefixes(k, &long, &index), None);
    }
}

#[test]
fn tokens_of_two_and_three_letters_with_empty_buckets() {
    let index = index_of(3, &[b"a"]);
    let tokens = split_tokens(b"AB CDE");
    for k in 0..3 {
        assert_eq!(search_prefixes(k, &tokens, &index), None);
    }
    for offset in 0..26u8 {
        assert!(!is_solution(&complete(&Mapping::new(), offset), &tokens, &index));
    }
}

#[test]
fn try_prefix_recovers_a_keyed_alphabet() {
    let cipher = b"PRCSOFQX FP QDR AFOPQ CZSPR LA JFPALOQSKR QDFP FP ZK LIU BROJZK MOLTROE";
    let dictionary = b"security\nfirst\ncause\nmisfortune\nthis\ngerman\nproverb\na\nzymurgy\n";
    let index = words_by_length(dictionary, longest_token(cipher));
    let tokens = split_tokens(cipher);
    let m = try_prefix(&[25, 4, 2, 20, 17], &tokens, &index).unwrap();
    assert_eq!(m, complete(&prefix_mapping(&[25, 4, 2, 20, 17]), 0));
    assert_eq!(try_prefix(&[25, 4, 2, 20, 17, 0], &tokens, &index), Some(m));
    assert_eq!(m.disk(), b"ZECURABDFGHIJKLMNOPQSTVWXY".to_vec());
    assert_eq!(
        m.apply(cipher),
        b"security is the first cause of misfortune this is an old german proverb".to_vec()
    );
    assert!(is_solution(&m, &tokens, &index));
    assert_eq!(try_prefix(&[25, 4, 2, 20], &tokens, &index), None);
    assert_eq!(search_prefixes(0, &tokens, &index), None);
    assert_eq!(search_prefixes(1, &tokens, &index), None);
}
