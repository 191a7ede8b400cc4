use crc_tools::crc::CRC32;
use crc_tools::parse::parse_dword;

#[test]
fn compute_empty_is_zero() {
    let crc = CRC32::new(0xEDB88320);
    assert_eq!(crc._calc(&[], 0), 0);
}

#[test]
fn compute_single_byte_a() {
    let crc = CRC32::new(0xEDB88320);
    assert_eq!(crc._calc(b"a", 0), 0xE8B7BE43);
}

#[test]
fn compute_empty_keeps_accumulator() {
    let crc = CRC32::new(0xEDB88320);
    assert_eq!(crc._calc(&[], 0xDEADBEEF), 0xDEADBEEF);
    assert_eq!(crc._calc(&[], 1), 1);
}

#[test]
fn build_is_idempotent() {
    let a = CRC32::new(0xEDB88320);
    let b = CRC32::new(0xEDB88320);
    assert_eq!(a.table, b.table);
    let c = CRC32::new(0x82F63B78);
    let d = CRC32::new(0x82F63B78);
    assert_eq!(c.table, d.table);
}

#[test]
fn table_first_entries() {
    let crc = CRC32::new(0xEDB88320);
    assert_eq!(crc.table.len(), 256);
    assert_eq!(crc.table[0], 0);
    assert_eq!(crc.table[1], 0x77073096);
    assert_eq!(crc.table[255], 0x2D02EF8D);
}

#[test]
fn compute_chains_across_split() {
    let crc = CRC32::new(0xEDB88320);
    let whole = crc._calc(b"hello world", 0);
    let first = crc._calc(b"hello ", 0);
    let chained = crc._calc(b"world", first);
    assert_eq!(whole, chained);
}

#[test]
fn parse_plain_hex() {
    assert_eq!(parse_dword("ff"), 255);
    assert_eq!(parse_dword("0"), 0);
    assert_eq!(parse_dword("EDB88320"), 0xEDB88320);
    assert_eq!(parse_dword("FFFFFFFF"), u32::MAX);
}

#[test]
fn parse_strips_hex_markers() {
    assert_eq!(parse_dword("0xEDB88320"), 0xEDB88320);
    assert_eq!(parse_dword("0x10"), 16);
    assert_eq!(parse_dword("0x0x10"), 16);
}

#[test]
fn parse_accepts_plus_sign() {
    assert_eq!(parse_dword("+1A"), 26);
}

#[test]
fn parse_bad_input_is_zero() {
    assert_eq!(parse_dword(""), 0);
    assert_eq!(parse_dword("xyz"), 0);
    assert_eq!(parse_dword("-5"), 0);
    assert_eq!(parse_dword("+"), 0);
    assert_eq!(parse_dword("12 34"), 0);
}

#[test]
fn parse_overflow_is_zero() {
    assert_eq!(parse_dword("100000000"), 0);
    assert_eq!(parse_dword("FFFFFFFFF"), 0);
}
