//! Varint, chunk and record codecs: encode, cut into chunks, decode back.

use komachi_db::chunk::{Chunk, ChunkType};
use komachi_db::record::{Record, RecordChunk};
use komachi_db::varint::{decode_usize, encode_usize};

fn random_bytes(n: usize) -> Vec<u8> {
    let mut v = Vec::with_capacity(n);
    for _ in 0..n {
        v.push(rand::random::<u8>());
    }
    v
}

#[test]
fn test_encode() {
    let num: usize = rand::random::<u64>() as usize;
    let a = encode_usize(num);
    let result = decode_usize(a.as_slice(), 0).unwrap();
    assert_eq!(result.0, num);
    assert_eq!(result.1, a.len());
}

#[test]
fn varint_fixed_values() {
    assert_eq!(encode_usize(0), vec![0]);
    assert_eq!(encode_usize(127), vec![127]);
    assert_eq!(encode_usize(128), vec![128, 1]);
    assert_eq!(encode_usize(300), vec![172, 2]);
    assert_eq!(decode_usize(&[172, 2, 99], 0), Some((300, 2)));
    assert_eq!(decode_usize(&[128], 0), None);
}

#[test]
fn test_chunk_encode() {
    let data = random_bytes(10);
    let chunk = Chunk::new(data, ChunkType::Full);
    assert!(chunk.check_crc32());
    let slice = chunk.encode();

    let (chunk_decode, end) = Chunk::decode(slice.as_slice(), 0).unwrap();
    assert_eq!(end, slice.len());
    assert_eq!(chunk.ty(), chunk_decode.ty());
    assert_eq!(chunk.crc32(), chunk_decode.crc32());
    assert_eq!(chunk.len(), chunk_decode.len());
    assert_eq!(chunk.data_len(), chunk_decode.data_len());
    assert_eq!(chunk.data, chunk_decode.data);
    assert!(chunk_decode.check_crc32());
}

#[test]
fn chunk_decode_rejects_bad_type() {
    let data = vec![1, 2, 3];
    let chunk = Chunk::new(data, ChunkType::Last);
    let mut slice = chunk.encode();
    slice[6] = 9;
    assert!(Chunk::decode(slice.as_slice(), 0).is_none());
}

#[test]
fn chunk_crc_detects_corruption() {
    let chunk = Chunk::new(vec![5; 32], ChunkType::Full);
    let mut slice = chunk.encode();
    slice[8] ^= 0xff;
    let (decoded, _) = Chunk::decode(slice.as_slice(), 0).unwrap();
    assert!(!decoded.check_crc32());
}

#[test]
fn test_record_encode() {
    let key = random_bytes(10);
    let value = random_bytes(10);

    let record = Record::new(key, value);
    let (chunks, _) = record.get_chunks(4 * 1024, 4 * 1024);
    assert_eq!(chunks.len(), 1);
    let first_chunk = match chunks.first().unwrap() {
        RecordChunk::Normal(c) => c,
        _ => panic!("expected a chunk"),
    };
    assert_eq!(first_chunk.ty(), ChunkType::Full);

    let decode_record = Record::decode(first_chunk.data.as_slice()).unwrap();
    assert_eq!(decode_record.value_size(), record.value_size());
    assert_eq!(decode_record.key_size(), record.key_size());
    assert_eq!(decode_record.len(), record.len());
    assert_eq!(decode_record.key(), record.key());
    assert_eq!(decode_record.value(), record.value());
}

#[test]
fn test_large_record_encode() {
    let key = random_bytes(10);
    let value = random_bytes(100000);

    let record = Record::new(key, value);
    let (chunks, _) = record.get_chunks(1024, 4 * 1024);
    let first_chunk = match chunks.first().unwrap() {
        RecordChunk::Normal(c) => c,
        _ => panic!("expected a chunk"),
    };
    let last_chunk = chunks
        .iter()
        .rev()
        .find_map(|rc| match rc {
            RecordChunk::Normal(c) => Some(c),
            _ => None,
        })
        .unwrap();

    assert!(chunks.len() >= 25);
    assert_eq!(first_chunk.len(), 1024);
    assert_eq!(first_chunk.ty(), ChunkType::First);
    assert_eq!(last_chunk.ty(), ChunkType::Last);

    let mut bytes: Vec<u8> = Vec::new();
    for record_chunk in chunks.iter() {
        if let RecordChunk::Normal(chunk) = record_chunk {
            assert!(chunk.len() <= 4 * 1024);
            bytes.extend_from_slice(chunk.data.as_slice());
        }
    }

    // every chunk or padding after the first fits the 4 KiB block grid
    let mut sum: usize = 0;
    for item in chunks.iter().skip(1) {
        let size = match item {
            RecordChunk::Normal(c) => c.len(),
            RecordChunk::Slop(s) => *s,
        };
        sum += size;
        assert!(sum <= 4 * 1024);
        sum %= 4 * 1024;
    }

    let decode_record = Record::decode(bytes.as_slice()).unwrap();
    assert_eq!(decode_record.value_size(), record.value_size());
    assert_eq!(decode_record.key_size(), record.key_size());
    assert_eq!(decode_record.len(), record.len());
    assert_eq!(decode_record.key(), record.key());
    assert_eq!(decode_record.value(), record.value());
}
