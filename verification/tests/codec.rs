use std::collections::BTreeMap;

use bm25f::codec::{
    deserialize_value, read_frame, read_length_from_mmap, read_value_from_mmap, serialize_value,
    write_buffer_to_binary_file, write_frame, write_value_to_binary_file, CodecError,
};
use bm25f::str_map::StrMap;

fn entry(pairs: &[(&str, u64)]) -> StrMap<u64> {
    let mut map: StrMap<u64> = StrMap::new();
    for (key, value) in pairs {
        map.insert(key.to_string(), *value);
    }
    map
}

fn listed(map: &StrMap<u64>) -> Vec<(String, u64)> {
    (0..map.len()).map(|i| (map.key_at(i).clone(), *map.value_at(i))).collect()
}

#[test]
fn entry_encoding_is_count_then_length_key_value() {
    let bytes = serialize_value(&entry(&[("A", 2)]));
    let mut expected = vec![1u8, 0, 0, 0, 0, 0, 0, 0];
    expected.extend_from_slice(&[1, 0, 0, 0, 0, 0, 0, 0]);
    expected.push(b'A');
    expected.extend_from_slice(&[2, 0, 0, 0, 0, 0, 0, 0]);
    assert_eq!(bytes, expected);
}

#[test]
fn empty_entry_encodes_as_a_zero_count() {
    assert_eq!(serialize_value(&entry(&[])), vec![0u8; 8]);
}

#[test]
fn entry_encoding_lists_the_keys_in_ascending_order() {
    let bytes = serialize_value(&entry(&[("b", 0x0102), ("a", 7)]));
    let mut expected = vec![2u8, 0, 0, 0, 0, 0, 0, 0];
    expected.extend_from_slice(&[1, 0, 0, 0, 0, 0, 0, 0, b'a', 7, 0, 0, 0, 0, 0, 0, 0]);
    expected.extend_from_slice(&[1, 0, 0, 0, 0, 0, 0, 0, b'b', 2, 1, 0, 0, 0, 0, 0, 0]);
    assert_eq!(bytes, expected);
}

#[test]
fn entry_encoding_is_that_of_an_ordered_map() {
    let pairs = [("doc-2", 5u64), ("doc-1", 1), ("é", u64::MAX), ("", 0)];
    let mut ordered: BTreeMap<String, u64> = BTreeMap::new();
    for (key, value) in pairs {
        ordered.insert(key.to_string(), value);
    }
    assert_eq!(serialize_value(&entry(&pairs)), bincode::serialize(&ordered).unwrap());
}

#[test]
fn decoding_undoes_encoding() {
    let written = entry(&[("doc-2", 5), ("doc-1", 1), ("é", u64::MAX), ("", 0)]);
    let decoded = deserialize_value(&serialize_value(&written)).unwrap();
    assert_eq!(listed(&decoded), listed(&written));
    assert_eq!(
        listed(&decoded),
        vec![
            ("".to_string(), 0),
            ("doc-1".to_string(), 1),
            ("doc-2".to_string(), 5),
            ("é".to_string(), u64::MAX)
        ]
    );
}

#[test]
fn decoding_reads_what_an_ordered_map_encodes_to() {
    let mut ordered: BTreeMap<String, u64> = BTreeMap::new();
    ordered.insert("x".to_string(), 3);
    ordered.insert("y".to_string(), 4);
    let decoded = deserialize_value(&bincode::serialize(&ordered).unwrap()).unwrap();
    assert_eq!(listed(&decoded), vec![("x".to_string(), 3), ("y".to_string(), 4)]);
}

#[test]
fn decoding_passes_over_what_follows_the_entry() {
    let mut bytes = serialize_value(&entry(&[("A", 2)]));
    bytes.extend_from_slice(&[0xff, 0xfe, 0xfd]);
    let decoded = deserialize_value(&bytes).unwrap();
    assert_eq!(listed(&decoded), vec![("A".to_string(), 2)]);
}

#[test]
fn decoding_lets_a_later_pair_replace_an_earlier_one() {
    let mut bytes = vec![2u8, 0, 0, 0, 0, 0, 0, 0];
    bytes.extend_from_slice(&[1, 0, 0, 0, 0, 0, 0, 0, b'k', 1, 0, 0, 0, 0, 0, 0, 0]);
    bytes.extend_from_slice(&[1, 0, 0, 0, 0, 0, 0, 0, b'k', 9, 0, 0, 0, 0, 0, 0, 0]);
    let decoded = deserialize_value(&bytes).unwrap();
    assert_eq!(listed(&decoded), vec![("k".to_string(), 9)]);
}

#[test]
fn decoding_sorts_pairs_that_come_out_of_order() {
    let mut bytes = vec![2u8, 0, 0, 0, 0, 0, 0, 0];
    bytes.extend_from_slice(&[1, 0, 0, 0, 0, 0, 0, 0, b'z', 1, 0, 0, 0, 0, 0, 0, 0]);
    bytes.extend_from_slice(&[1, 0, 0, 0, 0, 0, 0, 0, b'a', 2, 0, 0, 0, 0, 0, 0, 0]);
    let decoded = deserialize_value(&bytes).unwrap();
    assert_eq!(listed(&decoded), vec![("a".to_string(), 2), ("z".to_string(), 1)]);
}

#[test]
fn decoding_fails_on_truncated_bytes() {
    let bytes = serialize_value(&entry(&[("A", 2)]));
    for cut in 0..bytes.len() {
        assert_eq!(deserialize_value(&bytes[..cut]).err(), Some(CodecError::Malformed));
    }
}

#[test]
fn decoding_fails_on_a_key_that_is_not_utf8() {
    let mut bytes = vec![1u8, 0, 0, 0, 0, 0, 0, 0];
    bytes.extend_from_slice(&[1, 0, 0, 0, 0, 0, 0, 0, 0xff, 1, 0, 0, 0, 0, 0, 0, 0]);
    assert_eq!(deserialize_value(&bytes).err(), Some(CodecError::Malformed));
}

#[test]
fn decoding_fails_on_a_count_that_the_bytes_cannot_hold() {
    let bytes = vec![0xffu8; 8];
    assert_eq!(deserialize_value(&bytes).err(), Some(CodecError::Malformed));
}

#[test]
fn buffer_is_appended_and_its_range_returned() {
    let mut file = vec![9u8, 9, 9];
    assert_eq!(write_buffer_to_binary_file(&mut file, vec![1, 2]), (3, 5));
    assert_eq!(file, vec![9, 9, 9, 1, 2]);
    assert_eq!(write_buffer_to_binary_file(&mut file, vec![]), (5, 5));
    assert_eq!(file.len(), 5);
}

#[test]
fn length_is_written_as_eight_little_endian_bytes() {
    let mut file = Vec::new();
    assert_eq!(write_value_to_binary_file(&mut file, 0x0102_0304_0506_0708), (0, 8));
    assert_eq!(file, vec![8, 7, 6, 5, 4, 3, 2, 1]);
    assert_eq!(file, bincode::serialize(&0x0102_0304_0506_0708u64).unwrap());
    assert_eq!(write_value_to_binary_file(&mut file, 25), (8, 16));
    assert_eq!(&file[8..], &[25, 0, 0, 0, 0, 0, 0, 0]);
}

#[test]
fn length_is_read_back_from_its_range() {
    let mut file = vec![0xaau8];
    write_value_to_binary_file(&mut file, 1234567);
    assert_eq!(read_length_from_mmap(&file, 1, 9), Ok(1234567));
    assert_eq!(read_length_from_mmap(&file, 1, 8), Err(CodecError::Malformed));
    assert_eq!(read_length_from_mmap(&file, 2, 10), Err(CodecError::OutOfRange));
    assert_eq!(read_length_from_mmap(&file, 5, 4), Err(CodecError::OutOfRange));
}

#[test]
fn value_is_read_back_from_its_range() {
    let mut file = vec![7u8; 4];
    let (start, end) = write_buffer_to_binary_file(&mut file, serialize_value(&entry(&[("A", 2), ("B", 1)])));
    let read = read_value_from_mmap(&file, start, end).unwrap();
    assert_eq!(listed(&read), vec![("A".to_string(), 2), ("B".to_string(), 1)]);
    assert_eq!(read_value_from_mmap(&file, start, end + 1).err(), Some(CodecError::OutOfRange));
    assert_eq!(read_value_from_mmap(&file, end, start).err(), Some(CodecError::OutOfRange));
    assert_eq!(read_value_from_mmap(&file, start, end - 1).err(), Some(CodecError::Malformed));
}

#[test]
fn frame_is_the_payload_behind_its_length() {
    let mut file = Vec::new();
    let first = write_frame(&mut file, &entry(&[("A", 2)]));
    let second = write_frame(&mut file, &entry(&[("A", 1), ("B", 1)]));
    assert_eq!(first, 0);
    assert_eq!(second, 33);
    assert_eq!(&file[..8], &[25, 0, 0, 0, 0, 0, 0, 0]);
    assert_eq!(&file[8..33], serialize_value(&entry(&[("A", 2)])).as_slice());
    assert_eq!(&file[33..41], &[42, 0, 0, 0, 0, 0, 0, 0]);
    assert_eq!(file.len(), 33 + 8 + 42);
}

#[test]
fn every_frame_reads_back_at_its_offset() {
    let entries = [entry(&[("A", 2)]), entry(&[]), entry(&[("A", 1), ("B", 1)])];
    let mut file = Vec::new();
    let offsets: Vec<u64> = entries.iter().map(|e| write_frame(&mut file, e)).collect();
    for (e, offset) in entries.iter().zip(offsets) {
        assert_eq!(listed(&read_frame(&file, offset).unwrap()), listed(e));
    }
}

#[test]
fn frame_outside_the_file_is_out_of_range() {
    let mut file = Vec::new();
    write_frame(&mut file, &entry(&[("A", 2)]));
    assert_eq!(read_frame(&file, file.len() as u64).err(), Some(CodecError::OutOfRange));
    assert_eq!(read_frame(&file, u64::MAX).err(), Some(CodecError::OutOfRange));
    assert_eq!(read_frame(&file[..20], 0).err(), Some(CodecError::OutOfRange));
    assert_eq!(read_frame(&[0xffu8; 8], 0).err(), Some(CodecError::OutOfRange));
}

#[test]
fn frame_with_a_broken_payload_is_malformed() {
    let mut file = Vec::new();
    write_value_to_binary_file(&mut file, 4);
    write_buffer_to_binary_file(&mut file, vec![1, 2, 3, 4]);
    assert_eq!(read_frame(&file, 0).err(), Some(CodecError::Malformed));
}
