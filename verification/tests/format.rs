// Format detection: the four magic values, unknown magics, short buffers.

use macho_edit::{detect_format, ByteOrder, MachError, WordSize};

fn with_prefix(prefix: &[u8]) -> Vec<u8> {
    let mut v = prefix.to_vec();
    v.extend_from_slice(&[0u8; 4]);
    v
}

#[test]
fn detect_magic_32_big() {
    let data = with_prefix(&[0xfe, 0xed, 0xfa, 0xce]);
    assert_eq!(detect_format(&data), Ok((WordSize::W32, ByteOrder::Big)));
}

#[test]
fn detect_magic_32_little() {
    let data = with_prefix(&[0xce, 0xfa, 0xed, 0xfe]);
    assert_eq!(detect_format(&data), Ok((WordSize::W32, ByteOrder::Little)));
}

#[test]
fn detect_magic_64_big() {
    let data = with_prefix(&[0xfe, 0xed, 0xfa, 0xcf]);
    assert_eq!(detect_format(&data), Ok((WordSize::W64, ByteOrder::Big)));
}

#[test]
fn detect_magic_64_little() {
    let data = with_prefix(&[0xcf, 0xfa, 0xed, 0xfe]);
    assert_eq!(detect_format(&data), Ok((WordSize::W64, ByteOrder::Little)));
}

#[test]
fn detect_unknown_magic() {
    let data = with_prefix(&[0x7f, 0x45, 0x4c, 0x46]);
    assert_eq!(detect_format(&data), Err(MachError::UnrecognizedFormat));
}

#[test]
fn detect_near_miss_magic() {
    let data = with_prefix(&[0xfe, 0xed, 0xfa, 0xcd]);
    assert_eq!(detect_format(&data), Err(MachError::UnrecognizedFormat));
}

#[test]
fn detect_three_byte_buffer() {
    // Too short for any magic: fails cleanly, never reads out of bounds.
    let data = vec![0xfe, 0xed, 0xfa];
    assert_eq!(detect_format(&data), Err(MachError::TruncatedInput));
}

#[test]
fn detect_empty_buffer() {
    let data: Vec<u8> = Vec::new();
    assert_eq!(detect_format(&data), Err(MachError::TruncatedInput));
}
