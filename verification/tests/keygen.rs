use std::collections::HashSet;

use session_guard::keys::{generate, SessionKey};

fn is_alnum(b: u8) -> bool {
    b.is_ascii_alphanumeric()
}

#[test]
fn generated_keys_are_64_alphanumeric_bytes() {
    for _ in 0..100 {
        let key = generate();
        let bytes = key.as_bytes();
        assert_eq!(bytes.len(), 64);
        assert!(bytes.iter().all(|b| is_alnum(*b)));
    }
}

#[test]
fn ten_thousand_generations_do_not_collide() {
    let mut seen: HashSet<Vec<u8>> = HashSet::new();
    for _ in 0..10_000 {
        let key = generate();
        assert_eq!(key.as_bytes().len(), 64);
        assert!(key.as_bytes().iter().all(|b| is_alnum(*b)));
        assert!(seen.insert(key.as_bytes().clone()), "generated session key repeated");
    }
}

#[test]
fn from_bytes_accepts_exactly_well_formed_keys() {
    let good = vec![b'a'; 64];
    let key = SessionKey::from_bytes(good.clone()).expect("64 alphanumeric bytes refused");
    assert_eq!(key.as_bytes(), &good);

    assert!(SessionKey::from_bytes(vec![b'a'; 63]).is_err());
    assert!(SessionKey::from_bytes(vec![b'a'; 65]).is_err());
    let mut with_dash = vec![b'a'; 64];
    with_dash[10] = b'-';
    assert!(SessionKey::from_bytes(with_dash).is_err());
    assert!(SessionKey::from_bytes(Vec::new()).is_err());
}

#[test]
fn key_eq_compares_contents() {
    let a = SessionKey::from_bytes(vec![b'a'; 64]).unwrap();
    let a2 = SessionKey::from_bytes(vec![b'a'; 64]).unwrap();
    let b = SessionKey::from_bytes(vec![b'b'; 64]).unwrap();
    assert!(a.key_eq(&a2));
    assert!(!a.key_eq(&b));
    let c = a.clone_key();
    assert!(a.key_eq(&c));
}
