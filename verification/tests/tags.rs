//! Value-tag encoding round trips.

use komachi_db::format::{ValueTag, ValueType};

#[test]
fn test_value() {
    let sequence = rand::random::<u32>() as u64;
    let raw = ValueTag::new(sequence, ValueType::Value).unwrap();
    let wrapped = raw.wrap();
    let result = ValueTag::from_wrapped(&wrapped);
    assert_eq!(result.sequence_number, sequence);
    assert_eq!(result.ty, ValueType::Value);
}

#[test]
fn test_tombstone() {
    let sequence = rand::random::<u32>() as u64;
    let raw = ValueTag::new(sequence, ValueType::TombStone).unwrap();
    let wrapped = raw.wrap();
    let result = ValueTag::from_wrapped(&wrapped);
    assert_eq!(result.sequence_number, sequence);
    assert_eq!(result.ty, ValueType::TombStone);
}

#[test]
fn tag_round_trip_fixed() {
    let raw = ValueTag::new(12345, ValueType::TombStone).unwrap();
    let wrapped = raw.wrap();
    let result = ValueTag::from_wrapped(&wrapped);
    assert_eq!(result.sequence_number, 12345);
    assert_eq!(result.ty, ValueType::TombStone);
}

#[test]
fn tag_refuses_overflowing_sequence() {
    let r = ValueTag::new(1u64 << 63, ValueType::Value);
    assert!(matches!(r, Err(komachi_db::error::Error::SequenceNumberOverflow)));
    assert!(ValueTag::new((1u64 << 63) - 1, ValueType::Value).is_ok());
}

#[test]
fn tag_type_predicates() {
    let v = ValueTag::new(7, ValueType::Value).unwrap();
    let t = ValueTag::new(7, ValueType::TombStone).unwrap();
    assert!(v.is_value() && !v.is_tombstone());
    assert!(t.is_tombstone() && !t.is_value());
}
