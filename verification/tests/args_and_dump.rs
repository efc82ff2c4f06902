use rmemdump::chunk_bounds;
use rmemdump::dump_full;
use rmemdump::parse_size;
use rmemdump::MAX_CHUNK_LEN;

fn decode_lz4(bytes: &[u8]) -> Vec<u8> {
    let mut dec = lz4::Decoder::new(bytes).unwrap();
    let mut out = Vec::new();
    std::io::Read::read_to_end(&mut dec, &mut out).unwrap();
    out
}

#[test]
fn parse_decimal() {
    assert_eq!(parse_size(b"123"), Some(123));
    assert_eq!(parse_size(b"0"), Some(0));
    assert_eq!(parse_size(b" 42\n"), Some(42));
}

#[test]
fn parse_hexadecimal() {
    assert_eq!(parse_size(b"0x10"), Some(16));
    assert_eq!(parse_size(b"0x1f"), Some(31));
    assert_eq!(parse_size(b"0xFF"), Some(255));
    assert_eq!(parse_size(b"  0x80000000 "), Some(0x8000_0000));
}

#[test]
fn parse_rejects_malformed() {
    assert_eq!(parse_size(b""), None);
    assert_eq!(parse_size(b"   "), None);
    assert_eq!(parse_size(b"0x"), None);
    assert_eq!(parse_size(b"12a"), None);
    assert_eq!(parse_size(b"0xg1"), None);
    assert_eq!(parse_size(b"-5"), None);
    assert_eq!(parse_size(b"0x1ffffffffffffffff"), None);
}

#[test]
fn chunk_bounds_cover_region() {
    let n = 3 * MAX_CHUNK_LEN + 100;
    let bounds = chunk_bounds(n);
    assert_eq!(bounds.len(), 4);
    let mut pos = 0;
    for &(off, len) in &bounds {
        assert_eq!(off, pos);
        assert!(len <= MAX_CHUNK_LEN);
        pos += len;
    }
    assert_eq!(pos, n);
    assert_eq!(bounds[3].1, 100);
    let exact = chunk_bounds(2 * MAX_CHUNK_LEN);
    assert_eq!(exact.len(), 2);
    assert_eq!(exact[1].1, MAX_CHUNK_LEN);
    assert!(chunk_bounds(0).is_empty());
}

#[test]
fn full_dump_raw_is_identity() {
    let mut region = Vec::new();
    for i in 0..(2 * MAX_CHUNK_LEN + 33) {
        region.push((i % 251) as u8);
    }
    let out = dump_full(&region, false).unwrap();
    assert_eq!(out, region);
}

#[test]
fn full_dump_compressed_decodes_to_region() {
    let mut region = Vec::new();
    for i in 0..(2 * MAX_CHUNK_LEN + 33) {
        region.push((i % 17) as u8);
    }
    let raw = dump_full(&region, false).unwrap();
    let comp = dump_full(&region, true).unwrap();
    assert_eq!(decode_lz4(&comp), region);
    assert_eq!(decode_lz4(&comp), raw);
}
