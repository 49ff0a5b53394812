use cryptoquote::text::{longest_token, split_tokens};

#[test]
fn split_cuts_at_single_spaces() {
    assert_eq!(split_tokens(b"AB CDE F"), vec![&b"AB"[..], &b"CDE"[..], &b"F"[..]]);
}

#[test]
fn split_of_a_text_without_space_is_one_token() {
    assert_eq!(split_tokens(b"HELLO"), vec![&b"HELLO"[..]]);
}

#[test]
fn split_of_the_empty_text_is_one_empty_token() {
    assert_eq!(split_tokens(b""), vec![&b""[..]]);
}

#[test]
fn split_keeps_empty_tokens() {
    assert_eq!(split_tokens(b"A  B"), vec![&b"A"[..], &b""[..], &b"B"[..]]);
    assert_eq!(split_tokens(b" A"), vec![&b""[..], &b"A"[..]]);
    assert_eq!(split_tokens(b"A "), vec![&b"A"[..], &b""[..]]);
    assert_eq!(split_tokens(b" "), vec![&b""[..], &b""[..]]);
}

#[test]
fn split_agrees_with_the_standard_library() {
    let texts: [&[u8]; 5] = [b"PRCSOFQX FP QDR AFOPQ", b"  X  ", b"A\tB C\nD", b"", b"ONE"];
    for text in texts {
        let expected: Vec<&[u8]> = text.split(|&b| b == b' ').collect();
        assert_eq!(split_tokens(text), expected);
    }
}

#[test]
fn longest_token_is_the_maximum_length() {
    assert_eq!(longest_token(b"PRCSOFQX FP QDR AFOPQ CZSPR LA JFPALOQSKR QDFP FP ZK LIU BROJZK MOLTROE"), 10);
    assert_eq!(longest_token(b"A"), 1);
    assert_eq!(longest_token(b""), 0);
    assert_eq!(longest_token(b"AB  "), 2);
    assert_eq!(longest_token(b"A BCD EF"), 3);
}
