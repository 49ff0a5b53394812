use cryptoquote::Mapping;

#[test]
fn new_mapping_binds_nothing() {
    let m = Mapping::new();
    for c in b'A'..=b'Z' {
        assert_eq!(m.get(c), None);
    }
    assert_eq!(m.len(), 0);
    assert_eq!(m, Mapping::default());
}

#[test]
fn set_binds_one_letter() {
    let m = Mapping::new().set(b'Q', b'e').unwrap();
    assert_eq!(m.get(b'Q'), Some(b'e'));
    assert_eq!(m.get(b'A'), None);
    assert_eq!(m.get(b'Z'), None);
    assert_eq!(m.len(), 1);
}

#[test]
fn set_leaves_its_receiver_alone() {
    let before = Mapping::new().set(b'A', b'x').unwrap();
    let copy = before;
    let after = before.set(b'B', b'y').unwrap();
    assert_eq!(before, copy);
    assert_eq!(before.get(b'B'), None);
    assert_eq!(after.get(b'A'), Some(b'x'));
    assert_eq!(after.get(b'B'), Some(b'y'));
}

#[test]
fn set_refuses_a_second_letter() {
    let m = Mapping::new().set(b'C', b'a').unwrap();
    assert_eq!(m.set(b'C', b'b'), Err(()));
    assert_eq!(m.get(b'C'), Some(b'a'));
    assert_eq!(m.len(), 1);
}

#[test]
fn set_refuses_every_other_letter() {
    for c in b'A'..=b'Z' {
        let m = Mapping::new().set(c, b'm').unwrap();
        for l in b'a'..=b'z' {
            let again = m.set(c, l);
            if l == b'm' {
                assert_eq!(again, Ok(m));
            } else {
                assert_eq!(again, Err(()));
            }
        }
    }
}

#[test]
fn set_twice_is_set_once() {
    let once = Mapping::new().set(b'K', b'z').unwrap();
    let twice = once.set(b'K', b'z').unwrap();
    assert_eq!(once, twice);
    assert_eq!(twice.get(b'K'), Some(b'z'));
    assert_eq!(twice.len(), 1);
}

#[test]
fn set_lets_two_letters_share_a_plaintext_letter() {
    let m = Mapping::new().set(b'A', b'e').unwrap().set(b'B', b'e').unwrap();
    assert_eq!(m.get(b'A'), Some(b'e'));
    assert_eq!(m.get(b'B'), Some(b'e'));
    assert_eq!(m.len(), 2);
    assert_eq!(m.preimage(b'e'), Some(b'A'));
}

#[test]
fn apply_replaces_bound_letters_only() {
    let m = Mapping::new().set(b'H', b'c').unwrap().set(b'X', b'a').unwrap().set(b'Q', b't').unwrap();
    assert_eq!(m.apply(b"HXQ"), b"cat".to_vec());
    assert_eq!(m.apply(b"HXQ HZQ"), b"cat cZt".to_vec());
    assert_eq!(m.apply(b"hxq, 123!"), b"hxq, 123!".to_vec());
    assert_eq!(m.apply(b""), Vec::<u8>::new());
    assert_eq!(m.apply(&[0x40, 0x41, 0x5a, 0x5b, 0x00, 0xff]), vec![0x40, 0x41, 0x5a, 0x5b, 0x00, 0xff]);
}

#[test]
fn apply_gives_the_same_answer_twice() {
    let m = Mapping::new().set(b'A', b'q').unwrap();
    let text = b"ABBA AND BACK";
    assert_eq!(m.apply(text), m.apply(text));
    assert_eq!(m.apply(text), b"qBBq qND BqCK".to_vec());
}

#[test]
fn apply_of_the_empty_mapping_copies() {
    let text = b"THE QUICK BROWN FOX";
    assert_eq!(Mapping::new().apply(text), text.to_vec());
}

#[test]
fn preimage_finds_the_first_ciphertext_letter() {
    let m = Mapping::new().set(b'Z', b'a').unwrap().set(b'M', b'b').unwrap();
    assert_eq!(m.preimage(b'a'), Some(b'Z'));
    assert_eq!(m.preimage(b'b'), Some(b'M'));
    assert_eq!(m.preimage(b'c'), None);
    assert_eq!(Mapping::new().preimage(b'a'), None);
}

#[test]
fn len_counts_bound_letters() {
    let mut m = Mapping::new();
    for i in 0..26u8 {
        assert_eq!(m.len(), i);
        m = m.set(b'A' + i, b'z' - i).unwrap();
    }
    assert_eq!(m.len(), 26);
}

#[test]
fn disk_reads_the_assignment_backwards() {
    assert_eq!(Mapping::new().disk(), b"??????????????????????????".to_vec());
    let m = Mapping::new().set(b'Z', b'a').unwrap().set(b'M', b'c').unwrap().set(b'B', b'z').unwrap();
    assert_eq!(m.disk(), b"Z?M??????????????????????B".to_vec());
    let shared = Mapping::new().set(b'Q', b'e').unwrap().set(b'D', b'e').unwrap();
    assert_eq!(shared.disk(), b"????D?????????????????????".to_vec());
}
