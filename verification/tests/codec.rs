use shuffle_lines::codec::{read_offset, write_offset};
use shuffle_lines::offset::{dump_offsets, load_offsets};
use shuffle_lines::error::ShuffleError;

#[test]
fn record_is_little_endian() {
    let mut out: Vec<u8> = Vec::new();
    write_offset(0x0102_0304_0506_0708, &mut out);
    assert_eq!(out, vec![8u8, 7, 6, 5, 4, 3, 2, 1]);
}

#[test]
fn record_is_appended() {
    let mut out: Vec<u8> = vec![0xaa];
    write_offset(258, &mut out);
    assert_eq!(out, vec![0xaau8, 2, 1, 0, 0, 0, 0, 0, 0]);
}

#[test]
fn read_offset_reads_where_told() {
    let bytes: Vec<u8> = vec![9, 9, 0x39, 0x30, 0, 0, 0, 0, 0, 0, 9];
    assert_eq!(read_offset(&bytes, 2), 12345);
}

#[test]
fn dump_matches_std_little_endian() {
    let offsets: Vec<u64> = vec![0, 1, 255, 256, 65_536, u64::MAX, 0x8000_0000_0000_0000];
    let mut expected: Vec<u8> = Vec::new();
    for offset in &offsets {
        expected.extend_from_slice(&offset.to_le_bytes());
    }
    assert_eq!(dump_offsets(&offsets), expected);
}

#[test]
fn round_trip_keeps_offsets() {
    let offsets: Vec<u64> = vec![4, 0, 2, u64::MAX, 1 << 40];
    let bytes = dump_offsets(&offsets);
    assert_eq!(bytes.len(), 40);
    assert_eq!(load_offsets(&bytes), Ok(offsets));
}

#[test]
fn round_trip_of_empty_index() {
    let offsets: Vec<u64> = Vec::new();
    let bytes = dump_offsets(&offsets);
    assert!(bytes.is_empty());
    assert_eq!(load_offsets(&bytes), Ok(offsets));
}

#[test]
fn load_refuses_truncated_file() {
    let mut bytes = dump_offsets(&vec![7u64, 8]);
    bytes.pop();
    assert_eq!(load_offsets(&bytes), Err(ShuffleError::Format { length: 15 }));
}

#[test]
fn load_refuses_every_length_that_is_no_multiple_of_eight() {
    for length in 0usize..64 {
        let bytes = vec![0u8; length];
        let loaded = load_offsets(&bytes);
        if length % 8 == 0 {
            assert_eq!(loaded, Ok(vec![0u64; length / 8]));
        } else {
            assert_eq!(loaded, Err(ShuffleError::Format { length }));
        }
    }
}
