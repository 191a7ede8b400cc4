use crc_tools::reverse::CRC32Reverse;

#[test]
fn round_trip_single_byte() {
    let rev = CRC32Reverse::new(0xEDB88320);
    let accums = [0u32, 1, 0xDEADBEEF, 0xFFFFFFFF, 0x12345678];
    let bytes = [b'a', b'z', b'A', b'Z', b'0', b'9', b'_'];
    for &a in accums.iter() {
        for &b in bytes.iter() {
            let c = rev.calc(&[b], a);
            let sols = rev._rewind(&[b], c);
            assert!(sols.contains(&a));
        }
    }
}

#[test]
fn rewind_empty_returns_accumulator() {
    let rev = CRC32Reverse::new(0xEDB88320);
    assert_eq!(rev._rewind(&[], 0xCAFEBABE), vec![0xCAFEBABE]);
}

#[test]
fn rewind_buffer_recovers_start() {
    let rev = CRC32Reverse::new(0xEDB88320);
    let data = b"hello";
    let start = 0x12345678u32;
    let c = rev.calc(data, start);
    let sols = rev._rewind(data, c);
    assert!(sols.contains(&start));
    for &s in sols.iter() {
        assert_eq!(rev.calc(data, s), c);
    }
}

#[test]
fn forward_backward_consistency() {
    let rev = CRC32Reverse::new(0xEDB88320);
    let targets = [0xE8B7BE43u32, 0, 1, 0xDEADBEEF];
    let accums = [0u32, 0xFFFFFFFF, 42];
    for &desired in targets.iter() {
        for &accum in accums.iter() {
            let sols = rev.find_reverse(desired, accum);
            for s in sols.iter() {
                assert_eq!(s.len(), 4);
                assert_eq!(rev.calc(s, accum), desired);
            }
        }
    }
}

#[test]
fn scenario_reverse_known_crc() {
    let rev = CRC32Reverse::new(0xEDB88320);
    let desired = 0xE8B7BE43u32;
    let sols = rev.find_reverse(desired, 0);
    assert!(!sols.is_empty());
    for s in sols.iter() {
        assert_eq!(s.len(), 4);
        assert_eq!(rev.calc(s, 0), desired);
    }
}

#[test]
fn find_reverse_finds_planted_tail() {
    let rev = CRC32Reverse::new(0xEDB88320);
    let tail = b"wxyz";
    let accum = 0x01020304u32;
    let desired = rev.calc(tail, accum);
    let sols = rev.find_reverse(desired, accum);
    assert!(sols.iter().any(|s| s.as_slice() == tail));
}

#[test]
fn reverse_build_is_idempotent() {
    let a = CRC32Reverse::new(0xEDB88320);
    let b = CRC32Reverse::new(0xEDB88320);
    assert_eq!(a.table, b.table);
    assert_eq!(a.table_reverse, b.table_reverse);
    let sizes: usize = a.table_reverse.iter().map(|bucket| bucket.len()).sum();
    assert_eq!(sizes, 256);
}

#[test]
fn calc_matches_known_value() {
    let rev = CRC32Reverse::new(0xEDB88320);
    assert_eq!(rev.calc(b"a", 0), 0xE8B7BE43);
    assert_eq!(rev.calc(&[], 0), 0);
}
