//! Write-ahead-log framing end to end: frame records into a log image with
//! the writer, replay the image with the iterator.

use komachi_db::chunk::ChunkType;
use komachi_db::error::Error;
use komachi_db::log::{parse_log_file_name, LogIterator, LogWriter};
use komachi_db::record::Record;

fn random_bytes(n: usize) -> Vec<u8> {
    let mut v = Vec::with_capacity(n);
    for _ in 0..n {
        v.push(rand::random::<u8>());
    }
    v
}

/// Frame 1500 records with a 10000-byte value into one image at 4 KiB
/// blocks, replay it, and expect the keys back in order.
#[test]
fn test_log_manager() {
    let value = random_bytes(10000);
    let mut writer = LogWriter::new(4 * 1024);
    let mut image: Vec<u8> = Vec::new();

    for key in 0u32..1500 {
        let record = Record::new(key.to_le_bytes().to_vec(), value.clone());
        let bytes = writer.append_record(&record);
        image.extend_from_slice(bytes.as_slice());
    }

    let mut iter = LogIterator::new(String::from("log_1"), 4 * 1024, image);
    let mut result_keys: Vec<u32> = Vec::new();
    while let Some(item) = iter.next() {
        let wrapper = item.unwrap();
        let record = wrapper.record().unwrap();
        let mut array = [0u8; 4];
        array.copy_from_slice(record.key().as_slice());
        result_keys.push(u32::from_le_bytes(array));
        assert_eq!(record.value().as_slice(), value.as_slice());
    }
    let expected: Vec<u32> = (0u32..1500).collect();
    assert_eq!(result_keys, expected);
}

#[test]
fn replay_small_records() {
    let mut writer = LogWriter::new(64);
    let mut image: Vec<u8> = Vec::new();
    for i in 0u8..50 {
        let record = Record::new(vec![i], vec![i, i, i]);
        image.extend_from_slice(writer.append_record(&record).as_slice());
    }
    let mut iter = LogIterator::new(String::from("log_0"), 64, image);
    let mut count = 0u8;
    while let Some(item) = iter.next() {
        let record = item.unwrap().record().unwrap();
        assert_eq!(record.key().as_slice(), &[count]);
        assert_eq!(record.value().as_slice(), &[count, count, count]);
        count += 1;
    }
    assert_eq!(count, 50);
}

#[test]
fn replay_reports_crc_corruption() {
    let mut writer = LogWriter::new(4096);
    let record = Record::new(vec![1, 2, 3], vec![4, 5, 6]);
    let mut image = writer.append_record(&record);
    // flip a payload byte: the header's checksum no longer matches
    let last = image.len() - 1;
    image[last] ^= 0xff;
    let mut iter = LogIterator::new(String::from("log_2"), 4096, image);
    match iter.next() {
        Some(Err(Error::UnexpectedChunkCRC(name))) => assert_eq!(name, "log_2"),
        other => panic!("expected a checksum failure, got {:?}", other.is_some()),
    }
}

#[test]
fn replay_empty_image() {
    let mut iter = LogIterator::new(String::from("log_3"), 4096, Vec::new());
    assert!(iter.next().is_none());
}

#[test]
fn log_file_names() {
    assert_eq!(parse_log_file_name(b"log_0"), Some(0));
    assert_eq!(parse_log_file_name(b"log_42"), Some(42));
    assert_eq!(parse_log_file_name(b"log_18446744073709551615"), Some(u64::MAX));
    assert_eq!(parse_log_file_name(b"log_18446744073709551616"), None);
    assert_eq!(parse_log_file_name(b"log_"), None);
    assert_eq!(parse_log_file_name(b"log_1a"), None);
    assert_eq!(parse_log_file_name(b"lag_1"), None);
    assert_eq!(parse_log_file_name(b"xlog_1"), None);
    assert_eq!(parse_log_file_name(b""), None);
    assert_eq!(parse_log_file_name(b"log_007"), Some(7));
}

#[test]
fn writer_pads_short_block_tails() {
    // record of 16 bytes frames as a 23-byte Full chunk; in a 32-byte block
    // the 9-byte tail is padded, so the next record opens a fresh block
    let mut writer = LogWriter::new(32);
    let record = Record::new(vec![7; 4], vec![8; 10]);
    let bytes = writer.append_record(&record);
    assert_eq!(bytes.len(), 32);
    assert_eq!(writer.remaining_size, 32);
    // the pad is zero bytes after the chunk
    assert!(bytes[23..].iter().all(|b| *b == 0));
}

#[test]
fn chunk_type_wire_bytes() {
    assert_eq!(ChunkType::Full.as_byte(), 0);
    assert_eq!(ChunkType::First.as_byte(), 1);
    assert_eq!(ChunkType::Middle.as_byte(), 2);
    assert_eq!(ChunkType::Last.as_byte(), 3);
    assert_eq!(ChunkType::from_byte(2), Some(ChunkType::Middle));
    assert_eq!(ChunkType::from_byte(4), None);
    assert!(ChunkType::Full.is_ending());
    assert!(ChunkType::Last.is_ending());
    assert!(!ChunkType::First.is_ending());
    assert!(!ChunkType::Middle.is_ending());
}
