use wordle_solver::Letter;
use wordle_solver::Word;

fn word(s: &str) -> Word {
    Word::from_byte_slice(s.as_bytes()).expect("test words are valid")
}

#[test]
fn letter_from_u8_accepts_capitals() {
    assert_eq!(Letter::from_u8(b'A'), Some(Letter::A));
    assert_eq!(Letter::from_u8(b'Z'), Some(Letter::Z));
    assert_eq!(Letter::from_u8(b'M'), Some(Letter::M));
    assert_eq!(Letter::from_u8(b'a'), None);
    assert_eq!(Letter::from_u8(b'@'), None);
    assert_eq!(Letter::from_u8(b'['), None);
    assert_eq!(Letter::from_u8(b'0'), None);
}

#[test]
fn letter_round_trip() {
    for b in b'A'..=b'Z' {
        let l = Letter::from_u8(b).unwrap();
        assert_eq!(l.to_u8(), b);
        assert_eq!(l.index(), (b - b'A') as usize);
    }
}

#[test]
fn word_round_trip() {
    let w = Word::from_bytes(*b"CRATE").unwrap();
    assert_eq!(w.to_bytes(), *b"CRATE");
    let v = Word::from_byte_slice(b"QUERY").unwrap();
    assert_eq!(v.to_bytes(), *b"QUERY");
}

#[test]
fn word_construction_is_case_insensitive() {
    let w = Word::from_bytes(*b"crate").unwrap();
    assert_eq!(w.to_bytes(), *b"CRATE");
    let m = Word::from_bytes(*b"CrAtE").unwrap();
    assert_eq!(m.to_bytes(), *b"CRATE");
    assert_eq!(w, m);
}

#[test]
fn word_rejects_invalid_bytes() {
    assert!(Word::from_bytes(*b"CR4TE").is_none());
    assert!(Word::from_bytes(*b"CRAT ").is_none());
    assert!(Word::from_bytes(*b"CR@TE").is_none());
    assert!(Word::from_bytes(*b"CR[TE").is_none());
    assert!(Word::from_bytes(*b"cr{te").is_none());
}

#[test]
fn word_rejects_wrong_length() {
    assert!(Word::from_byte_slice(b"CRAT").is_none());
    assert!(Word::from_byte_slice(b"CRATES").is_none());
    assert!(Word::from_byte_slice(b"").is_none());
    assert!(Word::from_byte_slice(b"CRATE").is_some());
}

#[test]
fn word_contains_letters() {
    let w = word("CRATE");
    assert!(w.contains(Letter::C));
    assert!(w.contains(Letter::E));
    assert!(!w.contains(Letter::Z));
}

#[test]
fn word_uniqueness() {
    assert!(word("CRATE").is_unique());
    assert!(!word("GEESE").is_unique());
    assert!(!word("ABCDA").is_unique());
}

#[test]
fn word_equality_is_by_letters() {
    assert_eq!(word("CRATE"), Word::from_bytes(*b"CRATE").unwrap());
    assert_ne!(word("CRATE"), word("TRACE"));
}
