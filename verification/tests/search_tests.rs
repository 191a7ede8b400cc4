use crc_tools::alphabet::{is_permitted, permitted_chars};
use crc_tools::reverse::CRC32Reverse;
use crc_tools::search::{crc_collision, print_permitted_reverse};

#[test]
fn permitted_membership() {
    assert!(is_permitted(b'a'));
    assert!(is_permitted(b'z'));
    assert!(is_permitted(b'A'));
    assert!(is_permitted(b'Z'));
    assert!(is_permitted(b'0'));
    assert!(is_permitted(b'9'));
    assert!(is_permitted(b'_'));
    assert!(!is_permitted(b' '));
    assert!(!is_permitted(b'-'));
    assert!(!is_permitted(0));
    assert!(!is_permitted(127));
    assert!(!is_permitted(255));
}

#[test]
fn permitted_chars_layout() {
    let v = permitted_chars();
    assert_eq!(v.len(), 64);
    assert_eq!(&v[0..26], b"abcdefghijklmnopqrstuvwxyz");
    assert_eq!(&v[26..52], b"ABCDEFGHIJKLMNOPQRSTUVWXYZ");
    assert_eq!(&v[52..64], b"01234567890_");
    assert!(v.iter().all(|&b| is_permitted(b)));
}

#[test]
fn scenario_enumerator_contains_known_string() {
    let rev = CRC32Reverse::new(0xEDB88320);
    let target = rev.calc(b"abcd", 0);
    let found = crc_collision(target, 4);
    assert!(found.iter().any(|s| s == "abcd"));
    for s in found.iter() {
        assert_eq!(s.len(), 4);
        assert!(s.bytes().all(is_permitted));
        assert_eq!(rev.calc(s.as_bytes(), 0), target);
    }
}

#[test]
fn collision_respects_byte_count() {
    let rev = CRC32Reverse::new(0xEDB88320);
    let target = rev.calc(b"abcde", 0);
    let found = crc_collision(target, 5);
    assert!(found.iter().any(|s| s == "abcde"));
    for s in found.iter() {
        assert_eq!(s.len(), 5);
    }
    assert!(crc_collision(target, 7).is_empty());
    assert!(crc_collision(target, 0).is_empty());
}

#[test]
fn prefixed_search_finds_planted_string() {
    let rev = CRC32Reverse::new(0xEDB88320);
    let desired = rev.calc(b"q_Tail9", 0);
    // length seven needs a prefix of three, beyond the enumerator's range
    assert!(crc_collision(desired, 7).is_empty());

    let desired6 = rev.calc(b"qTail9", 0);
    let found = crc_collision(desired6, 6);
    assert!(found.iter().any(|s| s == "qTail9"));
}

#[test]
fn print_permitted_reverse_appends_candidates() {
    let rev = CRC32Reverse::new(0xEDB88320);
    let desired = rev.calc(b"xabcd", 0);
    let mut out = vec!["keep".to_string()];
    print_permitted_reverse(&mut out, &rev, b"x", desired, 0);
    assert_eq!(out[0], "keep");
    assert!(out[1..].iter().any(|s| s == "xabcd"));
    for s in out[1..].iter() {
        assert_eq!(s.len(), 5);
        assert!(s.starts_with('x'));
        assert!(s.bytes().all(is_permitted));
        assert_eq!(rev.calc(s.as_bytes(), 0), desired);
    }
}
