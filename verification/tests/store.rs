use tuidict::store::{decompress, extract, StoreError};
use std::io::Write;

fn gzip(data: &[u8]) -> Vec<u8> {
    let mut enc = flate2::write::GzEncoder::new(Vec::new(), flate2::Compression::default());
    enc.write_all(data).unwrap();
    enc.finish().unwrap()
}

#[test]
fn test_decompress_round_trip() {
    let packed = gzip("Guten Tag\nbonjour\n".as_bytes());
    let plain = decompress(&packed).unwrap();
    assert_eq!(plain, "Guten Tag\nbonjour\n".as_bytes().to_vec());
}

#[test]
fn test_decompress_malformed() {
    assert_eq!(decompress(b"plainly not gzip").err(), Some(StoreError::DecompressionError));
}

#[test]
fn test_decompress_invalid_utf8() {
    let packed = gzip(&[0xc3, 0x28, 0xa0, 0xa1]);
    assert_eq!(decompress(&packed).err(), Some(StoreError::EncodingError));
}

#[test]
fn test_extract_plain_range() {
    let blob = b"hello world".to_vec();
    assert_eq!(extract(&blob, 0, 5), Some("hello".to_string()));
    assert_eq!(extract(&blob, 6, 5), Some("world".to_string()));
}

#[test]
fn test_extract_trims_whitespace() {
    let blob = b"  a word \n".to_vec();
    assert_eq!(extract(&blob, 0, 10), Some("a word".to_string()));
}

#[test]
fn test_extract_out_of_range() {
    let blob = b"short".to_vec();
    assert_eq!(extract(&blob, 0, 6), None);
    assert_eq!(extract(&blob, 5, 1), None);
    assert_eq!(extract(&blob, u64::MAX, 1), None);
    assert_eq!(extract(&blob, 1, u64::MAX), None);
}

#[test]
fn test_extract_split_character() {
    // A range that cuts a multi-byte character in half is no text.
    let blob = "caf\u{e9}".as_bytes().to_vec();
    assert_eq!(blob.len(), 5);
    assert_eq!(extract(&blob, 0, 4), None);
    assert_eq!(extract(&blob, 0, 5), Some("caf\u{e9}".to_string()));
}
