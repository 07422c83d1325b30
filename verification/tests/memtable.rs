//! Memtable behaviour: internal-key ordering and snapshot reads.

use komachi_db::comparator::{Cmp, Comparator, NumberComparator};
use komachi_db::format::{ValueTag, ValueType};
use komachi_db::internal_key::{InternalKey, InternalKeyComparator};
use komachi_db::level_generator::RandomLevelGenerator;
use komachi_db::memtable::MemTableMut;

fn get_bytes(n: u32) -> Vec<u8> {
    n.to_le_bytes().to_vec()
}

fn ik(key: u32, sequence: u64, ty: ValueType) -> InternalKey {
    InternalKey::new(get_bytes(key), ValueTag::new(sequence, ty).unwrap())
}

#[test]
fn test_internal_key_comparator() {
    let a = ik(100, 1, ValueType::Value).as_bytes();
    let b = ik(100, 2, ValueType::Value).as_bytes();
    assert_eq!(
        InternalKeyComparator::<NumberComparator>::compare(a.as_slice(), b.as_slice()),
        Cmp::Less
    );

    let c = ik(101, 1, ValueType::Value).as_bytes();
    let d = ik(100, 2, ValueType::Value).as_bytes();
    assert_eq!(
        InternalKeyComparator::<NumberComparator>::compare(c.as_slice(), d.as_slice()),
        Cmp::Greater
    );
}

#[test]
fn internal_key_split_round_trip() {
    let key = ik(77, 9, ValueType::TombStone);
    let bytes = key.as_bytes();
    let (tag, user) = InternalKey::split(bytes.as_slice());
    assert_eq!(tag.sequence_number, 9);
    assert_eq!(tag.ty, ValueType::TombStone);
    assert_eq!(user, get_bytes(77));
}

/// Insert a value at sequence 1 and a tombstone at sequence 2 under one
/// key; reads at snapshots 1, 2 and 3 see the value, then the deletion.
#[test]
fn memtable_snapshot_search() {
    let mut memtable: MemTableMut<NumberComparator, RandomLevelGenerator> =
        MemTableMut::new(0, RandomLevelGenerator::new(10, 1, 10));

    memtable.add(ik(100, 1, ValueType::Value), b"v1".to_vec());
    memtable.add(ik(100, 2, ValueType::TombStone), Vec::new());

    let r1 = memtable.seek_by_key_and_sequence(get_bytes(100).as_slice(), 1).unwrap();
    match r1 {
        Some((tag, v)) => {
            assert!(tag.is_value());
            assert_eq!(v, b"v1".to_vec());
        },
        None => panic!("expected the sequence-1 record"),
    }

    let r2 = memtable.seek_by_key_and_sequence(get_bytes(100).as_slice(), 2).unwrap();
    match r2 {
        Some((tag, _)) => assert!(tag.is_tombstone()),
        None => panic!("expected the tombstone"),
    }

    let r3 = memtable.seek_by_key_and_sequence(get_bytes(100).as_slice(), 3).unwrap();
    match r3 {
        Some((tag, _)) => assert!(tag.is_tombstone()),
        None => panic!("expected the tombstone"),
    }

    // a key never inserted is absent at every snapshot
    assert!(memtable.seek_by_key_and_sequence(get_bytes(101).as_slice(), 3).unwrap().is_none());
    // the snapshot before the first write sees nothing
    assert!(memtable.seek_by_key_and_sequence(get_bytes(100).as_slice(), 0).unwrap().is_none());
}

#[test]
fn snapshot_sequence_overflow_is_refused() {
    let memtable: MemTableMut<NumberComparator, RandomLevelGenerator> =
        MemTableMut::new(0, RandomLevelGenerator::new(10, 1, 10));
    let r = memtable.seek_by_key_and_sequence(get_bytes(1).as_slice(), 1u64 << 63);
    assert!(matches!(r, Err(komachi_db::error::Error::SequenceNumberOverflow)));
}

#[test]
fn memtable_exact_and_iter() {
    let mut memtable: MemTableMut<NumberComparator, RandomLevelGenerator> =
        MemTableMut::new(3, RandomLevelGenerator::new(10, 1, 10));
    assert_eq!(memtable.log_number(), 3);

    for k in [5u32, 1, 9] {
        memtable.add(ik(k, k as u64, ValueType::Value), get_bytes(k));
    }

    let exact = memtable.seek_by_internal_key(&ik(5, 5, ValueType::Value));
    assert_eq!(exact, Some(get_bytes(5)));
    assert!(memtable.seek_by_internal_key(&ik(5, 6, ValueType::Value)).is_none());

    let mut keys: Vec<u32> = Vec::new();
    let mut iter = memtable.iter();
    while let Some((k, _)) = iter.next() {
        let (_, user) = InternalKey::split(k.as_slice());
        let mut array = [0u8; 4];
        array.copy_from_slice(user.as_slice());
        keys.push(u32::from_le_bytes(array));
    }
    assert_eq!(keys, vec![1, 5, 9]);

    let frozen = memtable.freeze();
    assert_eq!(frozen.log_number(), 3);
    let r = frozen.seek_by_key_and_sequence(get_bytes(9).as_slice(), 10).unwrap();
    assert!(r.is_some());
}
