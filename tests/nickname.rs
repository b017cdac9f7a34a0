use xdcc::nickname::{nickname_from, random_nickname, NICK_LEN};

#[test]
fn random_nickname_is_letters() {
    let n = random_nickname(NICK_LEN);
    assert_eq!(n.len(), 10);
    assert!(n.iter().all(|b| b.is_ascii_alphabetic()));
}

#[test]
fn draws_map_to_letters() {
    assert_eq!(nickname_from(&[0, 25, 26, 51]), b"AZaz".to_vec());
}

