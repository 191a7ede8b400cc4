use crc_tools::brute::{brute_alphabet, brute_force, index_to_candidate};
use crc_tools::crc::CRC32;
use crc_tools::reverse::CRC32Reverse;
use crc_tools::search::crc_collision;

#[test]
fn candidate_decoding() {
    let alpha = brute_alphabet();
    assert_eq!(alpha.len(), 27);
    assert_eq!(index_to_candidate(&alpha, 4, 0), b"aaaa");
    assert_eq!(index_to_candidate(&alpha, 4, 1), b"baaa");
    assert_eq!(index_to_candidate(&alpha, 4, 27), b"abaa");
    assert_eq!(index_to_candidate(&alpha, 3, 26), b"_aa");
    assert_eq!(index_to_candidate(&alpha, 0, 99), b"");
}

#[test]
fn brute_force_finds_planted_candidate() {
    let crc = CRC32::new(0xEDB88320);
    let alpha = brute_alphabet();
    let planted = index_to_candidate(&alpha, 3, 500);
    let target = crc._calc(&planted, 0);
    let found = brute_force(&crc, target, 3, &alpha, 0, 1000);
    assert!(found.iter().any(|c| c == &planted));
    for c in found.iter() {
        assert_eq!(crc._calc(c, 0), target);
    }
}

#[test]
fn brute_force_ranges_partition() {
    let crc = CRC32::new(0xEDB88320);
    let alpha = brute_alphabet();
    let target = crc._calc(b"ab", 0);
    let total: u64 = 27 * 27;
    let whole = brute_force(&crc, target, 2, &alpha, 0, total);
    let mut merged = brute_force(&crc, target, 2, &alpha, 0, total / 2);
    merged.extend(brute_force(&crc, target, 2, &alpha, total / 2, total));
    let mut a = whole.clone();
    let mut b = merged.clone();
    a.sort();
    b.sort();
    assert_eq!(a, b);
    assert!(whole.iter().any(|c| c == b"ab"));
}

#[test]
fn cross_check_brute_force_against_enumerator() {
    let crc = CRC32::new(0xEDB88320);
    let rev = CRC32Reverse::new(0xEDB88320);
    let alpha = brute_alphabet();
    let target = rev.calc(b"ab_c", 0);

    let total: u64 = 27 * 27 * 27 * 27;
    let mut brute: Vec<Vec<u8>> = brute_force(&crc, target, 4, &alpha, 0, total);

    let mut enumerated: Vec<Vec<u8>> = crc_collision(target, 4)
        .iter()
        .map(|s| s.as_bytes().to_vec())
        .filter(|c| c.iter().all(|b| alpha.contains(b)))
        .collect();

    brute.sort();
    brute.dedup();
    enumerated.sort();
    enumerated.dedup();
    assert_eq!(brute, enumerated);
    assert!(brute.iter().any(|c| c == b"ab_c"));
}
