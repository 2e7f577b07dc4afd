// Header and load-command table parsing, including each error condition
// and the counter round-trip.

use macho_edit::{parse_macho, MachError};

// A 64-bit header whose multi-byte fields are stored least-significant
// byte first (the magic then reads back as 0xfeedfacf).
fn header64_le(ncmds: u32, sizeofcmds: u32) -> Vec<u8> {
    let mut v = Vec::new();
    v.extend_from_slice(&0xfeedfacfu32.to_le_bytes());
    v.extend_from_slice(&0x01000007u32.to_le_bytes()); // cputype
    v.extend_from_slice(&0x00000003u32.to_le_bytes()); // cpusubtype
    v.extend_from_slice(&2u32.to_le_bytes()); // filetype
    v.extend_from_slice(&ncmds.to_le_bytes());
    v.extend_from_slice(&sizeofcmds.to_le_bytes());
    v.extend_from_slice(&0x00200085u32.to_le_bytes()); // flags
    v.extend_from_slice(&0u32.to_le_bytes()); // reserved
    v
}

fn record_le(cmd: u32, cmdsize: u32, payload: &[u8]) -> Vec<u8> {
    assert_eq!(payload.len() as u32, cmdsize - 8);
    let mut v = Vec::new();
    v.extend_from_slice(&cmd.to_le_bytes());
    v.extend_from_slice(&cmdsize.to_le_bytes());
    v.extend_from_slice(payload);
    v
}

#[test]
fn parse_minimal_header() {
    let data = header64_le(0, 0);
    let (header, cmds) = parse_macho(&data).unwrap();
    assert_eq!(header.magic, 0xfeedfacf);
    assert_eq!(header.cputype, 0x01000007);
    assert_eq!(header.cpusubtype, 3);
    assert_eq!(header.filetype, 2);
    assert_eq!(header.ncmds, 0);
    assert_eq!(header.sizeofcmds, 0);
    assert_eq!(header.flags, 0x00200085);
    assert_eq!(header.reserved, 0);
    assert_eq!(cmds.len(), 0);
}

#[test]
fn parse_negative_cputype() {
    let mut data = header64_le(0, 0);
    // cputype bytes hold -1 (all ones).
    data[4..8].copy_from_slice(&[0xff, 0xff, 0xff, 0xff]);
    let (header, _) = parse_macho(&data).unwrap();
    assert_eq!(header.cputype, -1);
}

#[test]
fn parse_two_records() {
    let mut data = header64_le(2, 24);
    data.extend_from_slice(&record_le(0x19, 12, &[1, 2, 3, 4]));
    data.extend_from_slice(&record_le(0x1d, 12, &[5, 6, 7, 8]));
    data.extend_from_slice(&[0xaa; 6]); // trailing content, not table bytes
    let (header, cmds) = parse_macho(&data).unwrap();
    assert_eq!(header.ncmds, 2);
    assert_eq!(cmds.len(), 2);
    assert_eq!(cmds[0].cmd, 0x19);
    assert_eq!(cmds[0].cmdsize, 12);
    assert_eq!(cmds[0].data, vec![1, 2, 3, 4]);
    assert_eq!(cmds[1].cmd, 0x1d);
    assert_eq!(cmds[1].cmdsize, 12);
    assert_eq!(cmds[1].data, vec![5, 6, 7, 8]);
}

#[test]
fn parse_big_endian_header() {
    let mut v = Vec::new();
    v.extend_from_slice(&0xfeedfaceu32.to_be_bytes()); // 32-bit, big-endian
    v.extend_from_slice(&18u32.to_be_bytes()); // cputype
    v.extend_from_slice(&0u32.to_be_bytes());
    v.extend_from_slice(&2u32.to_be_bytes());
    v.extend_from_slice(&1u32.to_be_bytes()); // ncmds
    v.extend_from_slice(&12u32.to_be_bytes()); // sizeofcmds
    v.extend_from_slice(&0u32.to_be_bytes());
    v.extend_from_slice(&0x21u32.to_be_bytes()); // record tag
    v.extend_from_slice(&12u32.to_be_bytes()); // record size
    v.extend_from_slice(&[9, 9, 9, 9]);
    let (header, cmds) = parse_macho(&v).unwrap();
    assert_eq!(header.magic, 0xfeedface);
    assert_eq!(header.cputype, 18);
    assert_eq!(header.ncmds, 1);
    assert_eq!(header.reserved, 0); // no reserved word in a 32-bit header
    assert_eq!(cmds[0].cmd, 0x21);
    assert_eq!(cmds[0].data, vec![9, 9, 9, 9]);
}

#[test]
fn parse_truncated_header() {
    // A valid magic but only 10 bytes: the header read runs out of input.
    let data = header64_le(0, 0)[..10].to_vec();
    assert_eq!(parse_macho(&data), Err(MachError::TruncatedInput));
}

#[test]
fn parse_truncated_table() {
    // Header promises one record but no record bytes follow.
    let data = header64_le(1, 12);
    assert_eq!(parse_macho(&data), Err(MachError::TruncatedInput));
}

#[test]
fn parse_record_past_end() {
    // The record declares more payload than the buffer holds.
    let mut data = header64_le(1, 100);
    data.extend_from_slice(&record_le(0x19, 12, &[1, 2, 3, 4]));
    data[36..40].copy_from_slice(&100u32.to_le_bytes()); // cmdsize := 100
    assert_eq!(parse_macho(&data), Err(MachError::TruncatedInput));
}

#[test]
fn parse_size_underflow() {
    // A declared record size below the 8-byte tag/size frame.
    let mut data = header64_le(1, 4);
    data.extend_from_slice(&record_le(0x19, 12, &[1, 2, 3, 4]));
    data[36..40].copy_from_slice(&4u32.to_le_bytes()); // cmdsize := 4
    assert_eq!(parse_macho(&data), Err(MachError::SizeUnderflow));
}

#[test]
fn counters_reserialize_byte_identical() {
    // Round-trip: writing the freshly parsed counters back over their own
    // fields, in the order they were read with, changes nothing.
    let mut data = header64_le(2, 24);
    data.extend_from_slice(&record_le(0x19, 12, &[1, 2, 3, 4]));
    data.extend_from_slice(&record_le(0x1d, 12, &[5, 6, 7, 8]));
    let (header, _) = parse_macho(&data).unwrap();
    let mut again = data.clone();
    again[16..20].copy_from_slice(&header.ncmds.to_le_bytes());
    again[20..24].copy_from_slice(&header.sizeofcmds.to_le_bytes());
    assert_eq!(again, data);
}
